//! The system calls for input and output.

use vstd::prelude::*;
use crate::kernel::{user_target, user_writable, Kernel, KernelError};
use crate::mm::user_memory::{buffer_mapped, token_root, translated_frame, user_byte};
use crate::mm::memory_set::untouched;
use crate::syscall::process::{ended, sys_exit};
use crate::syscall::SyscallOutcome;
use crate::task::suspend_current_and_run_next;

verus! {

/// The file descriptor of the console as input.
pub const FD_STDIN: usize = 0;

/// The file descriptor of the console as output.
pub const FD_STDOUT: usize = 1;

/// The bytes `bytes` are what the memory that `token` names holds from address `ptr`
/// on.
pub open spec fn is_user_data(
    memory: crate::mm::phys_memory::PhysMemory,
    token: u64,
    ptr: u64,
    bytes: Seq<u8>,
) -> bool {
    &&& ptr + bytes.len() <= u64::MAX
    &&& forall|k: int|
        0 <= k < bytes.len() ==> #[trigger] user_byte(memory, token_root(token), (ptr + k) as u64)
            == Some(bytes[k])
}

/// Reads the `len` bytes at address `ptr` of the address space that `token` names.
/// Nothing if a page of them cannot be found.
pub fn read_user(memory: &crate::mm::phys_memory::PhysMemory, token: u64, ptr: u64, len: usize) -> (r:
    Option<Vec<u8>>)
    requires
        memory.wf(),
    ensures
        r matches Some(bytes) ==> bytes@.len() == len && is_user_data(*memory, token, ptr, bytes@),
        r is None ==> ptr + len > u64::MAX || exists|k: int|
            0 <= k < len && (#[trigger] user_byte(*memory, token_root(token), (ptr + k) as u64))
                is None,
{
    if len as u64 > u64::MAX - ptr {
        return None;
    }
    let mut bytes: Vec<u8> = Vec::new();
    let mut k: usize = 0;
    while k < len
        invariant
            k <= len,
            ptr + len <= u64::MAX,
            memory.wf(),
            bytes@.len() == k,
            forall|j: int|
                0 <= j < k ==> #[trigger] user_byte(*memory, token_root(token), (ptr + j) as u64)
                    == Some(bytes@[j]),
        decreases len - k,
    {
        let addr: u64 = ptr + k as u64;
        match translated_frame(memory, token, addr) {
            Some(ppn) => {
                bytes.push(memory.read_byte(ppn, (addr % 4096) as usize));
            },
            None => {
                assert(user_byte(*memory, token_root(token), (ptr + k) as u64) is None);
                return None;
            },
        }
        k = k + 1;
    }
    Some(bytes)
}

/// Whether the `len` bytes from address `ptr` on can be read in the address space that
/// `token` names.
pub open spec fn user_readable(
    memory: crate::mm::phys_memory::PhysMemory,
    token: u64,
    ptr: u64,
    len: int,
) -> bool {
    &&& ptr + len <= u64::MAX
    &&& forall|k: int|
        0 <= k < len ==> (#[trigger] user_byte(memory, token_root(token), (ptr + k) as u64)) is Some
}

/// What a write of the running task gives: the bytes for the console and their number
/// as the result, with nothing changed; or, for another file than the console, the end
/// of the task; or the kernel cannot go on.
pub open spec fn wrote(before: Kernel, after: Kernel, fd: usize, buf: u64, len: usize, r: SyscallOutcome) -> bool {
    &&& fd != FD_STDOUT ==> ended(before, after, r, -1i32)
    &&& fd == FD_STDOUT ==> after == before && match r {
        SyscallOutcome::Console(bytes, n) => {
            &&& n == len as isize
            &&& bytes@.len() == len
            &&& (before.processor.running() matches Some(pid) && before.has_task(pid)
                && is_user_data(
                before.pool.memory,
                (8u64 << 60) | before.tasks@[before.index_of(
                    pid,
                )].inner().memory_set@.root,
                buf,
                bytes@,
            ))
        },
        SyscallOutcome::Fatal(e) => match before.processor.running() {
            None => e == KernelError::NoCurrentTask,
            Some(pid) => if !before.has_task(pid) {
                e == KernelError::NoSuchTask
            } else {
                e == KernelError::BadAddress && !(len <= isize::MAX && user_readable(
                    before.pool.memory,
                    (8u64 << 60) | before.tasks@[before.index_of(
                        pid,
                    )].inner().memory_set@.root,
                    buf,
                    len as int,
                ))
            },
        },
        _ => false,
    }
}

/// Writes the `len` bytes at address `buf` of the running task to the file `fd`. Only
/// the console is a file to write to: the bytes go to the caller, for the console. A
/// task that names another file is ended with the exit code -1. The kernel cannot go on
/// if the bytes cannot be read.
pub fn sys_write(kernel: &mut Kernel, fd: usize, buf: u64, len: usize) -> (r: SyscallOutcome)
    requires
        old(kernel).wf(),
    ensures
        final(kernel).wf(),
        final(kernel).env == old(kernel).env,
        final(kernel).apps == old(kernel).apps,
        wrote(*old(kernel), *final(kernel), fd, buf, len, r),
{
    if fd != FD_STDOUT {
        return sys_exit(kernel, -1);
    }
    let token = match crate::task::processor::current_user_token(kernel) {
        Ok(token) => token,
        Err(e) => {
            return SyscallOutcome::Fatal(e);
        },
    };
    if len > isize::MAX as usize {
        return SyscallOutcome::Fatal(KernelError::BadAddress);
    }
    proof {
        reveal(crate::kernel::spaces_ok);
    }
    match read_user(&kernel.pool.memory, token, buf, len) {
        Some(bytes) => SyscallOutcome::Console(bytes, len as isize),
        None => SyscallOutcome::Fatal(KernelError::BadAddress),
    }
}

/// What a read of the running task gives: the wish for one character from the
/// console, with nothing changed; or, for another file than the console, the end of the
/// task; or the kernel cannot go on.
pub open spec fn read_asked(before: Kernel, after: Kernel, fd: usize, len: usize, r: SyscallOutcome) -> bool {
    &&& fd != FD_STDIN ==> ended(before, after, r, -1i32)
    &&& fd == FD_STDIN ==> after == before && r == (if len != 1 {
        SyscallOutcome::Fatal(KernelError::UnsupportedRead)
    } else {
        SyscallOutcome::NeedChar
    })
}

/// Reads `len` bytes from the file `fd` to the address `buf` of the running task. Only
/// the console is a file to read from, and only one character at a time: the caller
/// gets a character from the console and hands it to `sys_read_char`. A task that
/// names another file is ended with the exit code -1.
pub fn sys_read(kernel: &mut Kernel, fd: usize, buf: u64, len: usize) -> (r: SyscallOutcome)
    requires
        old(kernel).wf(),
    ensures
        final(kernel).wf(),
        final(kernel).env == old(kernel).env,
        final(kernel).apps == old(kernel).apps,
        read_asked(*old(kernel), *final(kernel), fd, len, r),
{
    if fd != FD_STDIN {
        sys_exit(kernel, -1)
    } else if len != 1 {
        SyscallOutcome::Fatal(KernelError::UnsupportedRead)
    } else {
        SyscallOutcome::NeedChar
    }
}

/// The trap context of the `t`-th task has its program counter moved back to the call
/// instruction, so that the task makes its system call again when it goes on; nothing
/// else has changed.
pub open spec fn stepped_back(before: Kernel, after: Kernel, t: int) -> bool {
    let ppn = before.tasks@[t].inner().trap_cx_ppn.0;
    let pc = before.pool.memory.word(ppn, 33);
    &&& after.wf()
    &&& after.same_but_pool(before)
    &&& after.pool.allocator == before.pool.allocator
    &&& untouched(before.pool, after.pool, |q: u64| q == ppn)
    &&& forall|i: int|
        0 <= i < 37 ==> #[trigger] after.pool.memory.word(ppn, i) == if i == 33 {
            if pc < 4 {
                (pc + 0x1_0000_0000_0000_0000 - 4) as u64
            } else {
                (pc - 4) as u64
            }
        } else {
            before.pool.memory.word(ppn, i)
        }
}

/// What a character from the console gives the running task that reads: see
/// `sys_read_char`.
pub open spec fn char_read(before: Kernel, after: Kernel, buf: u64, c: u64, r: SyscallOutcome) -> bool {
    if c == 0 {
        match r {
            SyscallOutcome::NeedChar => before.processor.running() matches Some(pid) && exists|
                mid: Kernel,
            |
                #![trigger stepped_back(before, mid, before.index_of(pid))]
                {
                    &&& stepped_back(before, mid, before.index_of(pid))
                    &&& crate::syscall::process::yielded(mid, after, SyscallOutcome::Suspended(0))
                },
            SyscallOutcome::Fatal(e) => after == before && crate::task::processor::no_live_task(
                before,
                e,
            ),
            _ => false,
        }
    } else {
        &&& after.processor == before.processor
        &&& after.manager == before.manager
        &&& after.tasks == before.tasks
        &&& match r {
            SyscallOutcome::Done(v) => {
                &&& v == 0
                &&& (before.processor.running() matches Some(pid) && before.has_task(pid) && {
                    let t = before.index_of(pid);
                    let space = before.spaces()[t];
                    &&& user_writable(space, buf, 1)
                    &&& after.pool.frame(user_target(space, buf)) == crate::mm::phys_memory::with_bytes(
                        before.pool.frame(user_target(space, buf)),
                        (buf % 4096) as int,
                        seq![(c & 0xff) as u8],
                    )
                })
            },
            SyscallOutcome::Fatal(e) => match before.processor.running() {
                None => e == KernelError::NoCurrentTask,
                Some(pid) => if !before.has_task(pid) {
                    e == KernelError::NoSuchTask
                } else {
                    e == KernelError::BadAddress && !user_writable(
                        before.spaces()[before.index_of(pid)],
                        buf,
                        1,
                    )
                },
            },
            _ => false,
        }
    }
}

/// Goes on with a read of the running task, for which the console gave the character
/// `c`. Zero means that there is no character yet: the task gives up the processor, and
/// its program counter goes back to the call instruction, so that it asks again when
/// it gets the processor. Any other character is written to the address `buf` of the
/// task, and the read is done with the result zero.
pub fn sys_read_char(kernel: &mut Kernel, buf: u64, c: u64) -> (r: SyscallOutcome)
    requires
        old(kernel).wf(),
    ensures
        final(kernel).wf(),
        final(kernel).env == old(kernel).env,
        final(kernel).apps == old(kernel).apps,
        char_read(*old(kernel), *final(kernel), buf, c, r),
{
    if c == 0 {
        let t = match crate::task::processor::current_index(kernel) {
            Ok(t) => t,
            Err(e) => {
                return SyscallOutcome::Fatal(e);
            },
        };
        let ghost who = kernel.processor.running()->Some_0;
        proof {
            assert(kernel.is_task(t as int, who));
            assert(kernel.has_task(who) && kernel.index_of(who) == t);
        }
        if kernel.tasks[t].inner_ref().is_zombie() {
            return SyscallOutcome::Fatal(KernelError::NoSuchTask);
        }
        let ghost ppn = kernel.tasks@[t as int].inner().trap_cx_ppn.0;
        let mut cx = kernel.read_trap_cx(t);
        let ghost cx0 = cx;
        cx.sepc = cx.sepc.wrapping_sub(4);
        kernel.write_trap_cx(t, &cx);
        let ghost mid = *kernel;
        proof {
            assert forall|i: int| 0 <= i < 37 implies #[trigger] mid.pool.memory.word(ppn, i) == if i
                == 33 {
                if old(kernel).pool.memory.word(ppn, 33) < 4 {
                    (old(kernel).pool.memory.word(ppn, 33) + 0x1_0000_0000_0000_0000 - 4) as u64
                } else {
                    (old(kernel).pool.memory.word(ppn, 33) - 4) as u64
                }
            } else {
                old(kernel).pool.memory.word(ppn, i)
            } by {
                assert(mid.pool.memory.word(ppn, i) == cx.word(i));
                assert(cx0.word(i) == old(kernel).pool.memory.word(ppn, i));
                assert(cx0.word(33) == old(kernel).pool.memory.word(ppn, 33));
            }
            assert(stepped_back(*old(kernel), mid, t as int));
            crate::trap::handler::lemma_same_index(*old(kernel), mid, who);
        }
        return match suspend_current_and_run_next(kernel) {
            Ok(_) => SyscallOutcome::NeedChar,
            Err(e) => SyscallOutcome::Fatal(e),
        };
    }
    let pid = match kernel.processor.current() {
        Some(pid) => pid,
        None => {
            return SyscallOutcome::Fatal(KernelError::NoCurrentTask);
        },
    };
    let t = match kernel.find_task(pid) {
        Some(t) => t,
        None => {
            return SyscallOutcome::Fatal(KernelError::NoSuchTask);
        },
    };
    proof {
        kernel.lemma_index_of(t as int, pid);
    }
    let ch: u8 = (c & 0xff) as u8;
    let mut bytes: Vec<u8> = Vec::new();
    bytes.push(ch);
    let ghost space = kernel.spaces()[t as int];
    let ghost pool0 = kernel.pool;
    let written = kernel.write_user(t, buf, &bytes);
    proof {
        if written {
            reveal(crate::kernel::spaces_ok);
            assert(space.wf(pool0));
            crate::kernel::lemma_user_target_owned(space, buf, pool0);
            let target = user_target(space, buf);
            crate::mm::memory_set::lemma_owned_live(space, space@, pool0, target);
            crate::mm::map_area::lemma_live_has(pool0, target);
            assert(pool0.frame(target).len() == 4096);
            assert(bytes@ =~= seq![(c & 0xff) as u8]);
        }
    }
    if written {
        SyscallOutcome::Done(0)
    } else {
        SyscallOutcome::Fatal(KernelError::BadAddress)
    }
}

} // verus!
