//! The library of user programs: how a program asks the kernel for its services.
//!
//! Each function gives the number and the arguments of a system call; the caller traps
//! into the kernel with them. Waiting is done in steps: after each call the program
//! learns whether it is done or has to give up the processor and ask again.

use vstd::prelude::*;

verus! {

/// A system call: its number and its three arguments.
#[derive(Clone, Copy, Debug)]
pub struct SyscallRequest {
    pub id: usize,
    pub args: [u64; 3],
}

impl SyscallRequest {
    /// Whether this is the system call with the number `id` and the arguments `a0`,
    /// `a1` and `a2`.
    pub open spec fn is(self, id: usize, a0: u64, a1: u64, a2: u64) -> bool {
        &&& self.id == id
        &&& self.args[0] == a0
        &&& self.args[1] == a1
        &&& self.args[2] == a2
    }
}

/// What a program that waits does next.
#[derive(Clone, Copy, Debug, PartialEq, Eq, Structural)]
pub enum WaitStep {
    /// Give up the processor, then ask again.
    Yield,
    /// Done, with this result.
    Return(isize),
}

/// Writes the `len` bytes at address `buf` to the file `fd`.
pub fn write(fd: usize, buf: u64, len: usize) -> (r: SyscallRequest)
    ensures
        r.is(64, fd as u64, buf, len as u64),
{
    SyscallRequest { id: 64, args: [fd as u64, buf, len as u64] }
}

/// Reads `len` bytes from the file `fd` to the address `buf`.
pub fn read(fd: usize, buf: u64, len: usize) -> (r: SyscallRequest)
    ensures
        r.is(63, fd as u64, buf, len as u64),
{
    SyscallRequest { id: 63, args: [fd as u64, buf, len as u64] }
}

/// Ends the program with the exit code `exit_code`.
pub fn exit(exit_code: i32) -> (r: SyscallRequest)
    ensures
        r.is(93, (exit_code as i64) as u64, 0, 0),
{
    SyscallRequest { id: 93, args: [(exit_code as i64) as u64, 0, 0] }
}

/// Gives up the processor.
pub fn yield_() -> (r: SyscallRequest)
    ensures
        r.is(124, 0, 0, 0),
{
    SyscallRequest { id: 124, args: [0, 0, 0] }
}

/// Asks for the milliseconds since the start.
pub fn get_time() -> (r: SyscallRequest)
    ensures
        r.is(169, 0, 0, 0),
{
    SyscallRequest { id: 169, args: [0, 0, 0] }
}

/// Asks for the process number of the program.
pub fn getpid() -> (r: SyscallRequest)
    ensures
        r.is(172, 0, 0, 0),
{
    SyscallRequest { id: 172, args: [0, 0, 0] }
}

/// Makes a child of the program.
pub fn fork() -> (r: SyscallRequest)
    ensures
        r.is(220, 0, 0, 0),
{
    SyscallRequest { id: 220, args: [0, 0, 0] }
}

/// Replaces the program by the program whose name is the string at address `path`,
/// which ends with a zero byte.
pub fn exec(path: u64) -> (r: SyscallRequest)
    ensures
        r.is(221, path, 0, 0),
{
    SyscallRequest { id: 221, args: [path, 0, 0] }
}

/// The system call that collects a child: the child with the process number `pid`, or
/// any child if `pid` is -1. The exit code goes to the address `exit_code`.
pub fn sys_waitpid(pid: isize, exit_code: u64) -> (r: SyscallRequest)
    ensures
        r.is(260, (pid as i64) as u64, exit_code, 0),
{
    SyscallRequest { id: 260, args: [(pid as i64) as u64, exit_code, 0] }
}

/// What a program that waits for any child does after `sys_waitpid(-1, ..)` gave
/// `result`: while children still run it gives up the processor and asks again; else
/// it is done, with the process number of the child or -1.
pub fn wait(result: isize) -> (r: WaitStep)
    ensures
        r == if result == -2 {
            WaitStep::Yield
        } else {
            WaitStep::Return(result)
        },
{
    if result == -2 {
        WaitStep::Yield
    } else {
        WaitStep::Return(result)
    }
}

/// What a program that waits for the child `pid` does after `sys_waitpid(pid, ..)`
/// gave `result`: while the child still runs it gives up the processor and asks again;
/// else it is done, with the process number of the child or -1.
pub fn waitpid(result: isize) -> (r: WaitStep)
    ensures
        r == if result == -2 {
            WaitStep::Yield
        } else {
            WaitStep::Return(result)
        },
{
    if result == -2 {
        WaitStep::Yield
    } else {
        WaitStep::Return(result)
    }
}

/// What a program that sleeps for `duration` milliseconds does when the time is `now`
/// and it started to sleep at `start`: it gives up the processor until the time has
/// passed.
pub fn sleep(start: isize, now: isize, duration: usize) -> (r: WaitStep)
    ensures
        r == if now - start < duration {
            WaitStep::Yield
        } else {
            WaitStep::Return(0)
        },
{
    if (now as i128) - (start as i128) < duration as i128 {
        WaitStep::Yield
    } else {
        WaitStep::Return(0)
    }
}

} // verus!
