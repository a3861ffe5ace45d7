//! The system calls for processes.

use vstd::prelude::*;
use crate::kernel::{load_failure, user_target, user_writable, Kernel, KernelError};
use crate::loader::{get_app_data_by_name, has_app, is_first_app};
use crate::mm::user_memory::{is_str_at, token_root, translated_str};
use crate::syscall::SyscallOutcome;
use crate::task::processor::{current_index, current_user_token};
use crate::task::task::{executed, forked, TaskControlBlock, TaskStatus};
use crate::task::{
    copy_bytes, exit_current_and_run_next, exited, lemma_queue_changed,
    suspend_current_and_run_next,
};
use crate::timer::get_time_ms;

verus! {

/// The argument of `waitpid` that stands for any child.
pub const ANY_PROCESS: isize = -1;

/// The result of `waitpid` when the task has no child that is asked for.
pub const NO_CHILDREN_RUNNING: isize = -1;

/// The result of `waitpid` when the children that are asked for still run.
pub const CHILDREN_RUNNING: isize = -2;

/// What ending the running task with the exit code `exit_code` gives: the task has
/// ended; or there was no running task, and the kernel cannot go on.
pub open spec fn ended(before: Kernel, after: Kernel, r: SyscallOutcome, exit_code: i32) -> bool {
    match r {
        SyscallOutcome::Exited(code) => code == exit_code && after.processor.running() is None && (
        before.processor.running() matches Some(pid) && exited(before, after, pid, exit_code)),
        SyscallOutcome::Fatal(e) => after.tasks == before.tasks && after.pool == before.pool
            && match before.processor.running() {
            None => e == KernelError::NoCurrentTask,
            Some(pid) => e == KernelError::NoSuchTask && !before.has_task(pid),
        },
        _ => false,
    }
}

/// Ends the running task with the exit code `exit_code`.
pub fn sys_exit(kernel: &mut Kernel, exit_code: i32) -> (r: SyscallOutcome)
    requires
        old(kernel).wf(),
    ensures
        final(kernel).wf(),
        final(kernel).env == old(kernel).env,
        final(kernel).apps == old(kernel).apps,
        ended(*old(kernel), *final(kernel), r, exit_code),
{
    match exit_current_and_run_next(kernel, exit_code) {
        Ok(_) => SyscallOutcome::Exited(exit_code),
        Err(e) => SyscallOutcome::Fatal(e),
    }
}

/// What giving up the processor gives: the running task is at the end of the queue
/// of the tasks that are ready, and zero is its result; or there was no running task,
/// and the kernel cannot go on.
pub open spec fn yielded(before: Kernel, after: Kernel, r: SyscallOutcome) -> bool {
    &&& after.pool == before.pool
    &&& match r {
        SyscallOutcome::Suspended(v) => v == 0 && after.processor.running() is None && (
        before.processor.running() matches Some(pid) && {
            let t = before.index_of(pid);
            &&& before.is_task(t, pid)
            &&& after.same_tasks_but(before, t)
            &&& after.tasks@[t].inner() == (crate::task::task::TaskControlBlockInner {
                task_status: TaskStatus::Ready,
                ..before.tasks@[t].inner()
            })
            &&& after.manager@ == before.manager@.push(pid)
        }),
        SyscallOutcome::Fatal(e) => after.tasks == before.tasks && after.manager == before.manager
            && match before.processor.running() {
            None => e == KernelError::NoCurrentTask,
            Some(pid) => e == KernelError::NoSuchTask && (!before.has_task(pid)
                || before.tasks@[before.index_of(pid)].inner().task_status == TaskStatus::Zombie),
        },
        _ => false,
    }
}

/// Gives up the processor: the running task goes to the end of the queue.
pub fn sys_yield(kernel: &mut Kernel) -> (r: SyscallOutcome)
    requires
        old(kernel).wf(),
    ensures
        final(kernel).wf(),
        final(kernel).env == old(kernel).env,
        final(kernel).apps == old(kernel).apps,
        final(kernel).pool == old(kernel).pool,
        yielded(*old(kernel), *final(kernel), r),
{
    match suspend_current_and_run_next(kernel) {
        Ok(_) => SyscallOutcome::Suspended(0),
        Err(e) => SyscallOutcome::Fatal(e),
    }
}

/// The milliseconds since the start, for the value `ticks` of the cycle counter.
pub fn sys_get_time(ticks: u64) -> (r: SyscallOutcome)
    ensures
        r matches SyscallOutcome::Done(ms) && ms == (ticks / 12_500) as isize,
{
    SyscallOutcome::Done(get_time_ms(ticks) as isize)
}

/// What asking for the process number gives: the number of the running task; or
/// there was no running task, and the kernel cannot go on.
pub open spec fn pid_given(before: Kernel, r: SyscallOutcome) -> bool {
    match before.processor.running() {
        Some(pid) => if pid <= isize::MAX {
            r matches SyscallOutcome::Done(v) && v == pid
        } else {
            r matches SyscallOutcome::Fatal(KernelError::NoSuchTask)
        },
        None => r matches SyscallOutcome::Fatal(KernelError::NoCurrentTask),
    }
}

/// The process number of the running task.
pub fn sys_getpid(kernel: &mut Kernel) -> (r: SyscallOutcome)
    requires
        old(kernel).wf(),
    ensures
        *final(kernel) == *old(kernel),
        pid_given(*old(kernel), r),
{
    match kernel.processor.current() {
        Some(pid) => if pid <= isize::MAX as usize {
            SyscallOutcome::Done(pid as isize)
        } else {
            SyscallOutcome::Fatal(KernelError::NoSuchTask)
        },
        None => SyscallOutcome::Fatal(KernelError::NoCurrentTask),
    }
}

/// Why a fork failed: no task runs; or the running task is not in the table, or is a
/// zombie; or else the kernel lacks frames, a process number or the place for the
/// kernel stack, as `task_blocked` says.
pub open spec fn fork_failure(before: Kernel, e: KernelError) -> bool {
    match before.processor.running() {
        None => e == KernelError::NoCurrentTask,
        Some(pid) => if !before.has_task(pid) || before.tasks@[before.index_of(
            pid,
        )].inner().task_status == TaskStatus::Zombie {
            e == KernelError::NoSuchTask
        } else {
            crate::kernel::task_blocked(
                before,
                3 + 3 * crate::mm::memory_set::total_pages(
                    before.tasks@[before.index_of(pid)].inner().memory_set@.areas,
                ),
                e,
            )
        },
    }
}

/// What a fork of the running task gives: the child is made and is at the end of the
/// queue of the tasks that are ready, and its process number is the result; or the
/// kernel cannot go on.
pub open spec fn fork_called(before: Kernel, after: Kernel, r: SyscallOutcome) -> bool {
    match r {
        SyscallOutcome::Done(v) => (before.processor.running() matches Some(parent)
            && before.has_task(parent) && v >= 0 && forked(
            before,
            after,
            before.index_of(parent),
            v as usize,
        ) && after.manager@ == before.manager@.push(v as usize) && crate::task::task::task_added(
            before,
            after,
            v as usize,
        ) && crate::task::task::task_kept(before, after, before.index_of(parent))),
        SyscallOutcome::Fatal(e) => after.tasks == before.tasks && after.manager
            == before.manager && fork_failure(before, e),
        _ => false,
    }
}

/// Makes a child of the running task and puts it into the queue of the tasks that are
/// ready. The result for the parent is the process number of the child; the child
/// finds zero as the result in its trap context.
pub fn sys_fork(kernel: &mut Kernel) -> (r: SyscallOutcome)
    requires
        old(kernel).wf(),
    ensures
        final(kernel).wf(),
        final(kernel).env == old(kernel).env,
        final(kernel).apps == old(kernel).apps,
        final(kernel).processor == old(kernel).processor,
        fork_called(*old(kernel), *final(kernel), r),
{
    let t = match current_index(kernel) {
        Ok(t) => t,
        Err(e) => {
            assert(fork_failure(*kernel, e));
            return SyscallOutcome::Fatal(e);
        },
    };
    let ghost pid = kernel.processor.running()->Some_0;
    proof {
        assert(kernel.is_task(t as int, pid));
        assert(kernel.has_task(pid) && kernel.index_of(pid) == t);
    }
    if kernel.tasks[t].inner_ref().is_zombie() {
        assert(fork_failure(*kernel, KernelError::NoSuchTask));
        return SyscallOutcome::Fatal(KernelError::NoSuchTask);
    }
    match TaskControlBlock::fork(kernel, t) {
        Ok(child) => {
            let ghost kernel1 = *kernel;
            kernel.manager.add(child);
            proof {
                lemma_queue_changed(kernel1, *kernel);
                assert(kernel1.task_ok(kernel1.tasks@.len() - 1));
            }
            SyscallOutcome::Done(child as isize)
        },
        Err(e) => {
            assert(fork_failure(*old(kernel), e));
            SyscallOutcome::Fatal(e)
        },
    }
}

/// What an exec of the running task gives: the program with the name at address `path`
/// has replaced the program of the task, and the result is zero; or there is no such
/// program, nothing has changed and the result is -1; or the kernel cannot go on.
pub open spec fn exec_called(before: Kernel, after: Kernel, path: u64, r: SyscallOutcome) -> bool {
    match r {
        SyscallOutcome::Done(v) => (before.processor.running() matches Some(pid) && before.has_task(pid) && exists|name: Seq<u8>|
            #![trigger has_app(before.apps@, name)]
            {
                &&& is_str_at(
                    before.pool.memory,
                    before.tasks@[before.index_of(pid)].inner().memory_set@.root,
                    path,
                    name,
                )
                &&& if has_app(before.apps@, name) {
                    v == 0 && exists|i: int|
                        #![trigger before.apps@[i]]
                        is_first_app(before.apps@, name, i) && executed(
                            before,
                            after,
                            before.index_of(pid),
                            before.apps@[i].data@,
                        ) && crate::task::task::program_changed(before, after, before.index_of(pid))
                } else {
                    v == -1 && after == before
                }
            }),
        SyscallOutcome::Fatal(e) => after.tasks == before.tasks
            && match before.processor.running() {
            None => e == KernelError::NoCurrentTask,
            Some(pid) => if !before.has_task(pid) || before.tasks@[before.index_of(
                pid,
            )].inner().task_status == TaskStatus::Zombie {
                e == KernelError::NoSuchTask
            } else if forall|name: Seq<u8>|
                !is_str_at(
                    before.pool.memory,
                    before.tasks@[before.index_of(pid)].inner().memory_set@.root,
                    path,
                    name,
                ) {
                e == KernelError::BadAddress
            } else {
                exists|name: Seq<u8>, i: int|
                    #![trigger is_first_app(before.apps@, name, i)]
                    {
                        &&& is_str_at(
                            before.pool.memory,
                            before.tasks@[before.index_of(pid)].inner().memory_set@.root,
                            path,
                            name,
                        )
                        &&& is_first_app(before.apps@, name, i)
                        &&& load_failure(before.apps@[i].data@, before.pool, e)
                    }
            },
        },
        _ => false,
    }
}

/// Replaces the program of the running task by the program whose name is the string
/// at address `path`. The result is zero, or -1 if there is no program of that name.
pub fn sys_exec(kernel: &mut Kernel, path: u64) -> (r: SyscallOutcome)
    requires
        old(kernel).wf(),
    ensures
        final(kernel).wf(),
        final(kernel).env == old(kernel).env,
        final(kernel).apps == old(kernel).apps,
        final(kernel).processor == old(kernel).processor,
        final(kernel).manager == old(kernel).manager,
        exec_called(*old(kernel), *final(kernel), path, r),
{
    let t = match current_index(kernel) {
        Ok(t) => t,
        Err(e) => {
            return SyscallOutcome::Fatal(e);
        },
    };
    if kernel.tasks[t].inner_ref().is_zombie() {
        return SyscallOutcome::Fatal(KernelError::NoSuchTask);
    }
    let token = kernel.tasks[t].inner_ref().get_user_token();
    proof {
        let root = kernel.tasks@[t as int].inner().memory_set@.root;
        crate::mm::page_table::lemma_token_root(root);
        reveal(crate::kernel::spaces_ok);
        assert(kernel.spaces()[t as int].wf(kernel.pool));
        crate::mm::page_table::lemma_owned_has(
            kernel.pool,
            kernel.spaces()[t as int]@.owned,
            kernel.spaces()[t as int]@.owned[0],
        );
    }
    let ghost pid = kernel.processor.running()->Some_0;
    let ghost root = kernel.tasks@[t as int].inner().memory_set@.root;
    proof {
        assert(kernel.is_task(t as int, pid));
        assert(kernel.has_task(pid) && kernel.index_of(pid) == t);
        assert(kernel.spaces()[t as int]@.root == root);
        assert(token_root(token) == root);
    }
    let name = match translated_str(&kernel.pool.memory, token, path) {
        Some(name) => name,
        None => {
            assert(forall|name: Seq<u8>| !is_str_at(kernel.pool.memory, root, path, name));
            return SyscallOutcome::Fatal(KernelError::BadAddress);
        },
    };
    assert(is_str_at(kernel.pool.memory, root, path, name@));
    let idx = match get_app_data_by_name(&kernel.apps, &name) {
        Some(idx) => idx,
        None => {
            return SyscallOutcome::Done(-1);
        },
    };
    let data = copy_bytes(&kernel.apps[idx].data);
    match TaskControlBlock::exec(kernel, t, data.as_slice()) {
        Ok(()) => {
            proof {
                assert(has_app(old(kernel).apps@, name@));
                assert(old(kernel).apps@[idx as int].data@ == data@);
            }
            SyscallOutcome::Done(0)
        },
        Err(e) => {
            assert(is_str_at(old(kernel).pool.memory, root, path, name@));
            assert(is_first_app(old(kernel).apps@, name@, idx as int));
            assert(old(kernel).apps@[idx as int].data@ == data@);
            assert(load_failure(old(kernel).apps@[idx as int].data@, old(kernel).pool, e));
            SyscallOutcome::Fatal(e)
        },
    }
}

/// Whether a child with the process number `child` is one that `waitpid(pid, ..)` asks
/// for: any child if `pid` is -1, else the child with that number.
pub open spec fn asked_for(child: usize, pid: isize) -> bool {
    pid == -1 || (pid >= 0 && pid == child)
}

/// Whether the child at place `i` of `children` is the first that is asked for and is
/// a zombie.
pub open spec fn is_first_zombie(kernel: Kernel, children: Seq<usize>, pid: isize, i: int) -> bool {
    &&& 0 <= i < children.len()
    &&& zombie_asked_for(kernel, children[i], pid)
    &&& forall|j: int| 0 <= j < i ==> !zombie_asked_for(kernel, #[trigger] children[j], pid)
}

/// Whether the task with the number `child` is asked for, is in the table and is a
/// zombie.
pub open spec fn zombie_asked_for(kernel: Kernel, child: usize, pid: isize) -> bool {
    &&& asked_for(child, pid)
    &&& kernel.has_task(child)
    &&& kernel.tasks@[kernel.index_of(child)].inner().task_status == TaskStatus::Zombie
}

/// The four bytes of an exit code, least significant first.
pub open spec fn exit_code_bytes(code: i32) -> Seq<u8> {
    let c = code as u32;
    seq![
        (c & 0xff) as u8,
        ((c >> 8) & 0xff) as u8,
        ((c >> 16) & 0xff) as u8,
        ((c >> 24) & 0xff) as u8,
    ]
}

/// Looks among the children of the `t`-th task for children that `waitpid(pid, ..)`
/// asks for: whether there is one, and the place of the first that is a zombie.
pub fn find_zombie_child(kernel: &Kernel, t: usize, pid: isize) -> (r: (bool, Option<usize>))
    requires
        kernel.wf(),
        t < kernel.tasks@.len(),
    ensures
        r.0 == exists|j: int|
            0 <= j < kernel.tasks@[t as int].inner().children@.len() && asked_for(
                #[trigger] kernel.tasks@[t as int].inner().children@[j],
                pid,
            ),
        match r.1 {
            Some(i) => is_first_zombie(
                *kernel,
                kernel.tasks@[t as int].inner().children@,
                pid,
                i as int,
            ),
            None => forall|j: int|
                0 <= j < kernel.tasks@[t as int].inner().children@.len() ==> !zombie_asked_for(
                    *kernel,
                    #[trigger] kernel.tasks@[t as int].inner().children@[j],
                    pid,
                ),
        },
{
    let children = &kernel.tasks[t].inner_ref().children;
    let mut any: bool = false;
    let mut found: Option<usize> = None;
    let mut j: usize = 0;
    while j < children.len()
        invariant
            j <= children.len(),
            kernel.wf(),
            children@ == kernel.tasks@[t as int].inner().children@,
            any == exists|k: int| 0 <= k < j && asked_for(#[trigger] children@[k], pid),
            match found {
                Some(i) => is_first_zombie(*kernel, children@, pid, i as int),
                None => forall|k: int|
                    0 <= k < j ==> !zombie_asked_for(*kernel, #[trigger] children@[k], pid),
            },
        decreases children.len() - j,
    {
        let child: usize = children[j];
        let asked: bool = pid == ANY_PROCESS || (pid >= 0 && pid as usize == child);
        if asked {
            any = true;
            if found.is_none() {
                match kernel.find_task(child) {
                    Some(u) => {
                        proof {
                            kernel.lemma_index_of(u as int, child);
                        }
                        if kernel.tasks[u].inner_ref().is_zombie() {
                            found = Some(j);
                        }
                    },
                    None => {},
                }
            }
        }
        proof {
            if !asked {
                assert forall|k: int| 0 <= k < j + 1 && asked_for(
                    #[trigger] children@[k],
                    pid,
                ) implies k < j by {}
            }
        }
        j = j + 1;
    }
    (any, found)
}

/// What `waitpid` gives for the running task; without a running task the kernel
/// cannot go on.
pub open spec fn waitpid_called(before: Kernel, after: Kernel, pid: isize, exit_code_ptr: u64, r: SyscallOutcome) -> bool {
    match before.processor.running() {
        None => r matches SyscallOutcome::Fatal(KernelError::NoCurrentTask),
        Some(parent) => if !before.has_task(parent) {
            r matches SyscallOutcome::Fatal(KernelError::NoSuchTask)
        } else {
            waited(before, after, before.index_of(parent), pid, exit_code_ptr, r)
        },
    }
}

/// Collects a child that has ended. `pid` is the process number of the child, or -1
/// for any child; `exit_code_ptr` is the address in the running task to which the exit
/// code goes. The result is -1 if the task has no child that is asked for, and -2 if
/// none of those children is a zombie. Else the first such zombie leaves the children
/// of the task and the table of tasks, everything it had goes back to the kernel, its
/// exit code is written, and the result is its process number.
#[verifier::rlimit(50)]
pub fn sys_waitpid(kernel: &mut Kernel, pid: isize, exit_code_ptr: u64) -> (r: SyscallOutcome)
    requires
        old(kernel).wf(),
    ensures
        final(kernel).wf(),
        final(kernel).env == old(kernel).env,
        final(kernel).apps == old(kernel).apps,
        final(kernel).processor == old(kernel).processor,
        final(kernel).manager == old(kernel).manager,
        waitpid_called(*old(kernel), *final(kernel), pid, exit_code_ptr, r),
{
    let t = match current_index(kernel) {
        Ok(t) => t,
        Err(e) => {
            return SyscallOutcome::Fatal(e);
        },
    };
    let ghost kernel0 = *kernel;
    let parent: usize = kernel.tasks[t].getpid();
    let (any, found) = find_zombie_child(kernel, t, pid);
    if !any {
        return SyscallOutcome::Done(NO_CHILDREN_RUNNING);
    }
    let i = match found {
        Some(i) => i,
        None => {
            return SyscallOutcome::Done(CHILDREN_RUNNING);
        },
    };
    let child = kernel.remove_child(t, i);
    let ghost kernel1 = *kernel;
    let u = match kernel.find_task(child) {
        Some(u) => u,
        None => {
            proof {
                let w = kernel0.index_of(child);
                assert(kernel0.is_task(w, child));
                assert(kernel1.is_task(w, child));
            }
            return SyscallOutcome::Fatal(KernelError::NoSuchTask);
        },
    };
    proof {
        assert(kernel0.is_task(u as int, child));
        kernel0.lemma_index_of(u as int, child);
    }
    let (_, exit_code) = kernel.reap(u);
    let ghost kernel2 = *kernel;
    let t2 = match kernel.find_task(parent) {
        Some(t2) => t2,
        None => {
            proof {
                if t != u {
                    let w = if t < u {
                        t as int
                    } else {
                        t - 1
                    };
                    assert(kernel2.tasks@[w] == kernel1.tasks@[t as int]);
                    assert(kernel2.is_task(w, parent));
                }
                assert(child == parent);
            }
            return SyscallOutcome::Fatal(KernelError::NoSuchTask);
        },
    };
    proof {
        assert(t != u) by {
            if t == u {
                assert(!kernel2.has_task(child));
                assert(kernel2.is_task(t2 as int, parent));
            }
        }
        assert(kernel0.task_ok(u as int));
    }
    let code: u32 = exit_code as u32;
    let mut bytes: Vec<u8> = Vec::new();
    bytes.push((code & 0xff) as u8);
    bytes.push(((code >> 8) & 0xff) as u8);
    bytes.push(((code >> 16) & 0xff) as u8);
    bytes.push(((code >> 24) & 0xff) as u8);
    proof {
        assert(bytes@ =~= exit_code_bytes(exit_code));
    }
    if child > isize::MAX as usize {
        return SyscallOutcome::Fatal(KernelError::BadAddress);
    }
    proof {
        kernel2.lemma_index_of(t2 as int, parent);
        let w = if t < u {
            t as int
        } else {
            t - 1
        };
        assert(kernel2.tasks@[w] == kernel1.tasks@[t as int]);
        assert(kernel2.is_task(w, parent));
        kernel2.lemma_index_of(w, parent);
        assert(t2 == w);
        assert(kernel1.tasks@[u as int] == kernel0.tasks@[u as int]);
        assert(kernel2.spaces()[t2 as int] == kernel0.spaces()[t as int]);
    }
    let written = kernel.write_user(t2, exit_code_ptr, &bytes);
    proof {
        kernel.lemma_index_of(t2 as int, parent);
        if !kernel.has_task(child) {
        } else {
            let x = kernel.index_of(child);
            assert(kernel.is_task(x, child));
            assert(kernel2.is_task(x, child));
        }
        if written {
            let space = kernel0.spaces()[t as int];
            let target = user_target(space, exit_code_ptr);
            let child_space = kernel0.tasks@[u as int].inner().memory_set;
            assert(kernel1.tasks@[u as int].inner().memory_set == child_space);
            crate::mm::memory_set::lemma_untouched_trans(
                kernel0.pool,
                kernel2.pool,
                kernel.pool,
                |q: u64| child_space@.owns(q) || kernel1.kernel_space@.owns(q),
                |q: u64| q == target,
                |q: u64|
                    child_space@.owns(q) || kernel0.kernel_space@.owns(q) || q == user_target(
                        space,
                        exit_code_ptr,
                    ),
            );
            assert forall|w: int|
                0 <= w < kernel0.tasks@.len() && w != u && w != t implies #[trigger] kernel0.tasks@[w]
                == kernel.tasks@[if w < u {
                w
            } else {
                w - 1
            }] by {
                assert(kernel1.tasks@[w] == kernel0.tasks@[w]);
            }
            // the frame of the parent kept its bytes until the exit code was written
            reveal(crate::kernel::spaces_ok);
            assert(kernel0.spaces()[t as int].wf(kernel0.pool));
            crate::kernel::lemma_user_target_owned(space, exit_code_ptr, kernel0.pool);
            assert(kernel1.tasks@[t as int].inner().memory_set@.owns(target));
            assert(kernel2.pool.frame(target) == kernel1.pool.frame(target));
            assert forall|q: u64|
                kernel0.tasks@[u as int].inner().memory_set@.owns(q) implies !kernel.pool.is_live(
                q,
            ) by {
                assert(!kernel2.pool.is_live(q));
            }
        }
    }
    if written {
        SyscallOutcome::Done(child as isize)
    } else {
        SyscallOutcome::Fatal(KernelError::BadAddress)
    }
}

/// What `waitpid` does for the `t`-th task.
pub open spec fn waited(
    before: Kernel,
    after: Kernel,
    t: int,
    pid: isize,
    ptr: u64,
    r: SyscallOutcome,
) -> bool {
    let children = before.tasks@[t].inner().children@;
    if !(exists|j: int| 0 <= j < children.len() && asked_for(#[trigger] children[j], pid)) {
        (r matches SyscallOutcome::Done(v) && v == -1) && after == before
    } else if forall|j: int|
        0 <= j < children.len() ==> !zombie_asked_for(before, #[trigger] children[j], pid) {
        (r matches SyscallOutcome::Done(v) && v == -2) && after == before
    } else {
        match r {
            SyscallOutcome::Done(v) => exists|i: int|
                #![trigger children[i]]
                {
                    &&& is_first_zombie(before, children, pid, i)
                    &&& v == children[i]
                    &&& collected(before, after, t, i, ptr)
                },
            SyscallOutcome::Fatal(e) => exists|i: int|
                #![trigger children[i]]
                {
                    &&& is_first_zombie(before, children, pid, i)
                    &&& if children[i] == before.tasks@[t].id() {
                        e == KernelError::NoSuchTask
                    } else {
                        e == KernelError::BadAddress && !user_writable(
                            before.tasks@[t].inner().memory_set,
                            ptr,
                            4,
                        )
                    }
                },
            _ => false,
        }
    }
}

/// What collecting the child at place `i` of the children of the `t`-th task does: the
/// child is in the table no more, no frame of its address space is handed out, and
/// its process number and its kernel stack are given back; the parent has lost it as
/// a child and is as it was otherwise; every other task is as it was; the exit code of
/// the child lies at the address `ptr` of the parent; and no frame has changed but
/// frames of the child, frames of the kernel, and the frame that holds the exit code.
pub open spec fn collected(before: Kernel, after: Kernel, t: int, i: int, ptr: u64) -> bool {
    let parent0 = before.tasks@[t];
    let child_pid = parent0.inner().children@[i];
    let c = before.index_of(child_pid);
    let child = before.tasks@[c];
    let t2 = after.index_of(parent0.id());
    let parent1 = after.tasks@[t2];
    let space = parent0.inner().memory_set;
    &&& !after.has_task(child_pid)
    &&& !after.pid_allocator@.in_use(child_pid)
    &&& after.tasks@.len() == before.tasks@.len() - 1
    &&& after.is_task(t2, parent0.id())
    &&& parent1.inner().children@ == parent0.inner().children@.remove(i)
    &&& parent1.inner().memory_set == space
    &&& parent1.inner().task_status == parent0.inner().task_status
    &&& forall|q: u64| child.inner().memory_set@.owns(q) ==> !after.pool.is_live(q)
    &&& user_writable(space, ptr, 4)
    &&& after.pool.frame(user_target(space, ptr)) == crate::mm::phys_memory::with_bytes(
        before.pool.frame(user_target(space, ptr)),
        (ptr % 4096) as int,
        exit_code_bytes(child.inner().exit_code),
    )
    &&& parent1.inner().parent == parent0.inner().parent
    &&& parent1.inner().exit_code == parent0.inner().exit_code
    &&& parent1.inner().trap_cx_ppn == parent0.inner().trap_cx_ppn
    &&& parent1.inner().task_cx == parent0.inner().task_cx
    &&& parent1.inner().base_size == parent0.inner().base_size
    &&& forall|u: int|
        0 <= u < before.tasks@.len() && u != c && u != t ==> #[trigger] before.tasks@[u]
            == after.tasks@[if u < c {
            u
        } else {
            u - 1
        }]
    &&& after.pid_allocator@ == (crate::task::pid::PidsView {
        recycled: before.pid_allocator@.recycled.push(child_pid),
        ..before.pid_allocator@
    })
    &&& after.kernel_space@.areas == match crate::mm::memory_set::first_area_at(
        before.kernel_space@.areas,
        crate::kernel::stack_pages(child_pid).0,
    ) {
        Some(idx) => before.kernel_space@.areas.remove(idx),
        None => before.kernel_space@.areas,
    }
    &&& crate::mm::memory_set::untouched(
        before.pool,
        after.pool,
        |q: u64|
            child.inner().memory_set@.owns(q) || before.kernel_space@.owns(q) || q == user_target(
                space,
                ptr,
            ),
    )
}

/// A task that waits for one of its children by its process number, when that child
/// has ended and the address for the exit code can be written, collects it: the result
/// is the process number of the child, the child is in the table no more, and its exit
/// code lies at the address.
pub proof fn lemma_wait_collects_exit_code(
    before: Kernel,
    after: Kernel,
    t: int,
    child: usize,
    ptr: u64,
    r: SyscallOutcome,
)
    requires
        before.wf(),
        0 <= t < before.tasks@.len(),
        before.tasks@[t].inner().children@.contains(child),
        child != before.tasks@[t].id(),
        child <= isize::MAX,
        before.has_task(child),
        before.tasks@[before.index_of(child)].inner().task_status == TaskStatus::Zombie,
        user_writable(before.tasks@[t].inner().memory_set, ptr, 4),
        waited(before, after, t, child as isize, ptr, r),
    ensures
        r matches SyscallOutcome::Done(v) && v == child,
        !after.has_task(child),
        after.pool.frame(user_target(before.tasks@[t].inner().memory_set, ptr))
            == crate::mm::phys_memory::with_bytes(
            before.pool.frame(user_target(before.tasks@[t].inner().memory_set, ptr)),
            (ptr % 4096) as int,
            exit_code_bytes(before.tasks@[before.index_of(child)].inner().exit_code),
        ),
{
    let children = before.tasks@[t].inner().children@;
    let pid = child as isize;
    let j = choose|j: int| 0 <= j < children.len() && children[j] == child;
    assert(asked_for(children[j], pid));
    assert(zombie_asked_for(before, children[j], pid));
    match r {
        SyscallOutcome::Done(v) => {
            let i = choose|i: int|
                #![trigger children[i]]
                is_first_zombie(before, children, pid, i) && v == children[i] && collected(
                    before,
                    after,
                    t,
                    i,
                    ptr,
                );
            assert(children[i] == child);
        },
        SyscallOutcome::Fatal(e) => {
            let i = choose|i: int|
                #![trigger children[i]]
                is_first_zombie(before, children, pid, i) && (if children[i] == before.tasks@[t].id() {
                    e == KernelError::NoSuchTask
                } else {
                    e == KernelError::BadAddress && !user_writable(
                        before.tasks@[t].inner().memory_set,
                        ptr,
                        4,
                    )
                });
            assert(children[i] == child);
        },
        _ => {},
    }
}

} // verus!
