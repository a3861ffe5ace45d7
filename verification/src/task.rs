//! Tasks: their contexts, process numbers and kernel stacks, and the queue of tasks
//! that are ready to run.

pub mod context;
pub mod manager;
pub mod pid;
pub mod processor;
pub mod task;

use vstd::prelude::*;
use crate::kernel::{Kernel, KernelError};
use crate::loader::{get_app_data_by_name, has_app};
use crate::task::context::TaskContext;
use crate::task::task::{TaskControlBlock, TaskStatus};

verus! {

/// The process number of the first process, which adopts the children of processes
/// that exit.
pub const INITPROC_PID: usize = 0;

/// The name of the program of the first process.
pub open spec fn initproc_name() -> Seq<u8> {
    seq![0x69u8, 0x6eu8, 0x69u8, 0x74u8, 0x70u8, 0x72u8, 0x6fu8, 0x63u8]
}

/// The name of the program of the first process: "initproc".
pub fn initproc_name_bytes() -> (r: Vec<u8>)
    ensures
        r@ == initproc_name(),
{
    let mut name: Vec<u8> = Vec::new();
    name.push(0x69);
    name.push(0x6e);
    name.push(0x69);
    name.push(0x74);
    name.push(0x70);
    name.push(0x72);
    name.push(0x6f);
    name.push(0x63);
    assert(name@ =~= initproc_name());
    name
}

/// Makes the first process from the program with the name "initproc", and puts it
/// into the queue of the tasks that are ready. Returns its process number.
pub fn add_initproc(kernel: &mut Kernel) -> (r: Result<usize, KernelError>)
    requires
        old(kernel).wf(),
    ensures
        final(kernel).wf(),
        final(kernel).processor == old(kernel).processor,
        final(kernel).apps == old(kernel).apps,
        final(kernel).env == old(kernel).env,
        !has_app(old(kernel).apps@, initproc_name()) ==> r == Err::<usize, KernelError>(
            KernelError::BadProgram,
        ),
        match r {
            Ok(pid) => {
                &&& !old(kernel).has_task(pid)
                &&& final(kernel).tasks@.len() == old(kernel).tasks@.len() + 1
                &&& final(kernel).tasks@.last().id() == pid
                &&& final(kernel).tasks@.last().inner().task_status == TaskStatus::Ready
                &&& final(kernel).manager@ == old(kernel).manager@.push(pid)
                &&& exists|i: int|
                    #![trigger old(kernel).apps@[i]]
                    crate::loader::is_first_app(old(kernel).apps@, initproc_name(), i)
                        && crate::task::task::task_started(
                        *old(kernel),
                        *final(kernel),
                        pid,
                        old(kernel).apps@[i].data@,
                    )
            },
            Err(e) => final(kernel).tasks == old(kernel).tasks && final(kernel).manager == old(kernel).manager
                && (has_app(old(kernel).apps@, initproc_name()) ==> exists|i: int|
                #![trigger old(kernel).apps@[i]]
                crate::loader::is_first_app(old(kernel).apps@, initproc_name(), i)
                    && crate::kernel::start_failure(*old(kernel), old(kernel).apps@[i].data@, e)),
        },
{
    let name = initproc_name_bytes();
    let idx = match get_app_data_by_name(&kernel.apps, &name) {
        Some(idx) => idx,
        None => {
            return Err(KernelError::BadProgram);
        },
    };
    let data: Vec<u8> = copy_bytes(&kernel.apps[idx].data);
    let pid = match TaskControlBlock::new(kernel, data.as_slice()) {
        Ok(pid) => pid,
        Err(e) => {
            return Err(e);
        },
    };
    let ghost kernel1 = *kernel;
    kernel.manager.add(pid);
    proof {
        lemma_queue_changed(kernel1, *kernel);
    }
    Ok(pid)
}

/// A copy of the bytes `src`.
pub fn copy_bytes(src: &Vec<u8>) -> (r: Vec<u8>)
    ensures
        r@ == src@,
{
    let mut r: Vec<u8> = Vec::new();
    let mut i: usize = 0;
    while i < src.len()
        invariant
            i <= src.len(),
            r@ == src@.subrange(0, i as int),
        decreases src.len() - i,
    {
        r.push(src[i]);
        assert(r@ =~= src@.subrange(0, i + 1));
        i = i + 1;
    }
    assert(src@.subrange(0, src.len() as int) =~= src@);
    r
}

/// A kernel in which only the queue and the processor have changed is as consistent
/// as it was.
pub proof fn lemma_queue_changed(before: Kernel, after: Kernel)
    requires
        before.wf(),
        after.pool == before.pool,
        after.kernel_space == before.kernel_space,
        after.pid_allocator == before.pid_allocator,
        after.tasks == before.tasks,
        after.owner == before.owner,
    ensures
        after.wf(),
{
    assert(after.spaces() =~= before.spaces());
    assert(after.ids() =~= before.ids());
    assert forall|u: int| 0 <= u < after.tasks@.len() implies #[trigger] after.task_ok(u) by {
        assert(before.task_ok(u));
    }
}

/// Takes the running task off the processor and puts it at the end of the queue of the
/// tasks that are ready. The caller then switches to the idle loop.
pub fn suspend_current_and_run_next(kernel: &mut Kernel) -> (r: Result<usize, KernelError>)
    requires
        old(kernel).wf(),
    ensures
        final(kernel).wf(),
        final(kernel).pool == old(kernel).pool,
        final(kernel).kernel_space == old(kernel).kernel_space,
        final(kernel).apps == old(kernel).apps,
        final(kernel).env == old(kernel).env,
        final(kernel).processor.running() is None,
        match r {
            Ok(pid) => {
                let t = old(kernel).index_of(pid);
                &&& old(kernel).processor.running() == Some(pid)
                &&& old(kernel).is_task(t, pid)
                &&& old(kernel).tasks@[t].inner().task_status != TaskStatus::Zombie
                &&& final(kernel).same_tasks_but(*old(kernel), t)
                &&& final(kernel).tasks@[t].inner() == (crate::task::task::TaskControlBlockInner {
                    task_status: TaskStatus::Ready,
                    ..old(kernel).tasks@[t].inner()
                })
                &&& final(kernel).manager@ == old(kernel).manager@.push(pid)
            },
            Err(e) => {
                &&& final(kernel).tasks == old(kernel).tasks
                &&& final(kernel).manager == old(kernel).manager
                &&& match old(kernel).processor.running() {
                    None => e == KernelError::NoCurrentTask,
                    Some(pid) => e == KernelError::NoSuchTask && (!old(kernel).has_task(pid)
                        || old(kernel).tasks@[old(kernel).index_of(pid)].inner().task_status
                        == TaskStatus::Zombie),
                }
            },
        },
{
    let ghost kernel0 = *kernel;
    let pid = match kernel.processor.take_current() {
        Some(pid) => pid,
        None => {
            proof {
                lemma_queue_changed(kernel0, *kernel);
            }
            return Err(KernelError::NoCurrentTask);
        },
    };
    proof {
        lemma_queue_changed(kernel0, *kernel);
    }
    let t = match kernel.find_task(pid) {
        Some(t) => t,
        None => {
            proof {
                if kernel0.has_task(pid) {
                    let u = kernel0.index_of(pid);
                    assert(kernel0.is_task(u, pid));
                    assert(kernel.is_task(u, pid));
                }
            }
            return Err(KernelError::NoSuchTask);
        },
    };
    proof {
        assert(kernel0.is_task(t as int, pid));
        kernel0.lemma_index_of(t as int, pid);
    }
    if kernel.tasks[t].inner_ref().is_zombie() {
        return Err(KernelError::NoSuchTask);
    }
    let ghost kernel1 = *kernel;
    kernel.set_status(t, TaskStatus::Ready);
    let ghost kernel2 = *kernel;
    kernel.manager.add(pid);
    proof {
        lemma_queue_changed(kernel2, *kernel);
        assert(kernel0.is_task(t as int, pid));
        kernel0.lemma_index_of(t as int, pid);
        assert(kernel.same_tasks_but(kernel0, t as int));
        assert(kernel.tasks@[t as int].inner() == (crate::task::task::TaskControlBlockInner {
            task_status: TaskStatus::Ready,
            ..kernel0.tasks@[t as int].inner()
        }));
    }
    Ok(pid)
}

/// Takes the task at the front of the queue, if there is one, and puts it on the
/// processor. Returns its process number and the context to switch to; the caller
/// switches to it from the idle loop.
pub fn run_tasks(kernel: &mut Kernel) -> (r: Option<(usize, TaskContext)>)
    requires
        old(kernel).wf(),
    ensures
        final(kernel).wf(),
        final(kernel).pool == old(kernel).pool,
        final(kernel).kernel_space == old(kernel).kernel_space,
        final(kernel).apps == old(kernel).apps,
        final(kernel).env == old(kernel).env,
        old(kernel).manager@.len() == 0 ==> r is None && final(kernel).manager@ == old(kernel).manager@,
        old(kernel).manager@.len() > 0 ==> final(kernel).manager@ == old(kernel).manager@.subrange(
            1,
            old(kernel).manager@.len() as int,
        ),
        r matches Some((pid, cx)) ==> {
            let t = old(kernel).index_of(pid);
            &&& old(kernel).manager@.len() > 0
            &&& pid == old(kernel).manager@[0]
            &&& old(kernel).is_task(t, pid)
            &&& final(kernel).same_tasks_but(*old(kernel), t)
            &&& final(kernel).tasks@[t].inner() == (crate::task::task::TaskControlBlockInner {
                task_status: TaskStatus::Running,
                ..old(kernel).tasks@[t].inner()
            })
            &&& cx == old(kernel).tasks@[t].inner().task_cx
            &&& final(kernel).processor.running() == Some(pid)
        },
        r is None ==> final(kernel).tasks == old(kernel).tasks && final(kernel).processor == old(kernel).processor,
        old(kernel).manager@.len() > 0 ==> (r is Some <==> old(kernel).has_task(old(kernel).manager@[0])
            && old(kernel).tasks@[old(kernel).index_of(old(kernel).manager@[0])].inner().task_status
            != TaskStatus::Zombie),
{
    let ghost kernel0 = *kernel;
    let pid = match kernel.manager.fetch() {
        Some(pid) => pid,
        None => {
            proof {
                lemma_queue_changed(kernel0, *kernel);
            }
            return None;
        },
    };
    proof {
        lemma_queue_changed(kernel0, *kernel);
    }
    let t = match kernel.find_task(pid) {
        Some(t) => t,
        None => {
            proof {
                if kernel0.has_task(pid) {
                    let u = kernel0.index_of(pid);
                    assert(kernel0.is_task(u, pid));
                    assert(kernel.is_task(u, pid));
                }
            }
            return None;
        },
    };
    proof {
        assert(kernel0.is_task(t as int, pid));
        kernel0.lemma_index_of(t as int, pid);
    }
    if kernel.tasks[t].inner_ref().is_zombie() {
        return None;
    }
    let cx = kernel.tasks[t].inner_ref().task_cx;
    let ghost kernel1 = *kernel;
    kernel.set_status(t, TaskStatus::Running);
    let ghost kernel2 = *kernel;
    kernel.processor.set_current(pid);
    proof {
        lemma_queue_changed(kernel2, *kernel);
        assert(kernel0.is_task(t as int, pid));
        kernel0.lemma_index_of(t as int, pid);
        assert(kernel.same_tasks_but(kernel0, t as int));
        assert(kernel.tasks@[t as int].inner() == (crate::task::task::TaskControlBlockInner {
            task_status: TaskStatus::Running,
            ..kernel0.tasks@[t as int].inner()
        }));
    }
    Some((pid, cx))
}

/// The context of the idle loop, to which the caller switches from the task that gives
/// up the processor.
pub fn schedule(kernel: &Kernel) -> (r: TaskContext)
    ensures
        r == kernel.processor.idle_cx(),
{
    kernel.processor.get_idle_task_cx()
}

/// The tasks of `after` are those of `before`, each with the process number, the
/// address space, the standing, the exit code and the task context it had; parents and
/// children may differ.
pub open spec fn same_families_apart(before: Kernel, after: Kernel) -> bool {
    &&& after.tasks@.len() == before.tasks@.len()
    &&& forall|u: int|
        0 <= u < before.tasks@.len() ==> {
            &&& (#[trigger] after.tasks@[u]).id() == before.tasks@[u].id()
            &&& after.tasks@[u].inner().memory_set == before.tasks@[u].inner().memory_set
            &&& after.tasks@[u].inner().trap_cx_ppn == before.tasks@[u].inner().trap_cx_ppn
            &&& after.tasks@[u].inner().task_status == before.tasks@[u].inner().task_status
            &&& after.tasks@[u].inner().exit_code == before.tasks@[u].inner().exit_code
            &&& after.tasks@[u].inner().base_size == before.tasks@[u].inner().base_size
            &&& after.tasks@[u].inner().task_cx == before.tasks@[u].inner().task_cx
        }
}

/// Gives the tasks `children` to the first process: each of them gets the first
/// process as its parent, and the first process gets them as its youngest children,
/// in order.
pub fn reparent(kernel: &mut Kernel, children: &Vec<usize>)
    requires
        old(kernel).wf(),
    ensures
        final(kernel).wf(),
        final(kernel).pool == old(kernel).pool,
        final(kernel).kernel_space == old(kernel).kernel_space,
        final(kernel).pid_allocator == old(kernel).pid_allocator,
        final(kernel).manager == old(kernel).manager,
        final(kernel).processor == old(kernel).processor,
        final(kernel).apps == old(kernel).apps,
        final(kernel).env == old(kernel).env,
        same_families_apart(*old(kernel), *final(kernel)),
        forall|j: int|
            0 <= j < children@.len() && old(kernel).has_task(#[trigger] children@[j]) ==> final(kernel).tasks@[old(kernel).index_of(children@[j])].inner().parent == Some(INITPROC_PID),
        forall|u: int|
            0 <= u < old(kernel).tasks@.len() && (forall|j: int|
                0 <= j < children@.len() ==> #[trigger] children@[j] != old(kernel).tasks@[u].id())
                ==> (#[trigger] final(kernel).tasks@[u]).inner().parent == old(kernel).tasks@[u].inner().parent,
        forall|u: int|
            0 <= u < old(kernel).tasks@.len() && old(kernel).tasks@[u].id() != INITPROC_PID ==> (
            #[trigger] final(kernel).tasks@[u]).inner().children == old(kernel).tasks@[u].inner().children,
        old(kernel).has_task(INITPROC_PID) ==> final(kernel).tasks@[old(kernel).index_of(
            INITPROC_PID,
        )].inner().children@ == old(kernel).tasks@[old(kernel).index_of(
            INITPROC_PID,
        )].inner().children@ + children@,
{
    let ghost kernel0 = *kernel;
    let mut i: usize = 0;
    while i < children.len()
        invariant
            i <= children.len(),
            kernel0 == *old(kernel),
            kernel0.wf(),
            kernel.wf(),
            kernel.pool == kernel0.pool,
            kernel.kernel_space == kernel0.kernel_space,
            kernel.pid_allocator == kernel0.pid_allocator,
            kernel.manager == kernel0.manager,
            kernel.processor == kernel0.processor,
            kernel.apps == kernel0.apps,
            kernel.env == kernel0.env,
            same_families_apart(kernel0, *kernel),
            forall|j: int|
                0 <= j < i && kernel0.has_task(#[trigger] children@[j]) ==> kernel.tasks@[kernel0.index_of(
                    children@[j],
                )].inner().parent == Some(INITPROC_PID),
            forall|u: int|
                0 <= u < kernel0.tasks@.len() && (forall|j: int|
                    0 <= j < i ==> #[trigger] children@[j] != kernel0.tasks@[u].id()) ==> (
                #[trigger] kernel.tasks@[u]).inner().parent == kernel0.tasks@[u].inner().parent,
            forall|u: int|
                0 <= u < kernel0.tasks@.len() && kernel0.tasks@[u].id() != INITPROC_PID ==> (
                #[trigger] kernel.tasks@[u]).inner().children == kernel0.tasks@[u].inner().children,
            kernel0.has_task(INITPROC_PID) ==> kernel.tasks@[kernel0.index_of(
                INITPROC_PID,
            )].inner().children@ == kernel0.tasks@[kernel0.index_of(
                INITPROC_PID,
            )].inner().children@ + children@.subrange(0, i as int),
        decreases children.len() - i,
    {
        let child: usize = children[i];
        let ghost kernel1 = *kernel;
        match kernel.find_task(child) {
            Some(u) => {
                kernel.set_parent(u, Some(INITPROC_PID));
                proof {
                    assert(kernel0.is_task(u as int, child));
                    kernel0.lemma_index_of(u as int, child);
                }
            },
            None => {
                proof {
                    if kernel0.has_task(child) {
                        let u = kernel0.index_of(child);
                        assert(kernel0.is_task(u, child));
                        assert(kernel1.is_task(u, child));
                    }
                }
            },
        }
        let ghost kernel2 = *kernel;
        match kernel.find_task(INITPROC_PID) {
            Some(v) => {
                kernel.push_child(v, child);
                proof {
                    assert(kernel0.is_task(v as int, INITPROC_PID));
                    kernel0.lemma_index_of(v as int, INITPROC_PID);
                    assert(children@.subrange(0, i + 1) =~= children@.subrange(0, i as int).push(
                        child,
                    ));
                    assert(kernel.tasks@[v as int].inner().children@ =~= kernel0.tasks@[v as int].inner().children@
                        + children@.subrange(0, i + 1));
                }
            },
            None => {
                proof {
                    if kernel0.has_task(INITPROC_PID) {
                        let v = kernel0.index_of(INITPROC_PID);
                        assert(kernel0.is_task(v, INITPROC_PID));
                        assert(kernel2.is_task(v, INITPROC_PID));
                    }
                }
            },
        }
        proof {
            assert forall|j: int|
                0 <= j < i + 1 && kernel0.has_task(#[trigger] children@[j]) implies kernel.tasks@[kernel0.index_of(
                children@[j],
            )].inner().parent == Some(INITPROC_PID) by {
                let w = kernel0.index_of(children@[j]);
                assert(kernel0.is_task(w, children@[j]));
                if j < i {
                    assert(kernel1.tasks@[w].inner().parent == Some(INITPROC_PID));
                }
            }
            assert forall|u: int|
                0 <= u < kernel0.tasks@.len() && (forall|j: int|
                    0 <= j < i + 1 ==> #[trigger] children@[j] != kernel0.tasks@[u].id()) implies (
            #[trigger] kernel.tasks@[u]).inner().parent == kernel0.tasks@[u].inner().parent by {
                assert(children@[i as int] != kernel0.tasks@[u].id());
                assert forall|j: int| 0 <= j < i implies #[trigger] children@[j]
                    != kernel0.tasks@[u].id() by {}
                assert(kernel1.tasks@[u].inner().parent == kernel0.tasks@[u].inner().parent);
            }
        }
        i = i + 1;
    }
    proof {
        assert(children@.subrange(0, i as int) =~= children@);
    }
}

/// Ends the running task with the exit code `exit_code`: it becomes a zombie and
/// leaves the processor; its children go to the first process; its areas are removed
/// and their frames go back to the pool, while its page table and its task control
/// block stay until its parent collects the exit code. Returns the process number of
/// the task. The caller then switches to the idle loop.
pub fn exit_current_and_run_next(kernel: &mut Kernel, exit_code: i32) -> (r: Result<
    usize,
    KernelError,
>)
    requires
        old(kernel).wf(),
    ensures
        final(kernel).wf(),
        final(kernel).kernel_space == old(kernel).kernel_space,
        final(kernel).pid_allocator == old(kernel).pid_allocator,
        final(kernel).manager == old(kernel).manager,
        final(kernel).apps == old(kernel).apps,
        final(kernel).env == old(kernel).env,
        final(kernel).processor.running() is None,
        match r {
            Ok(pid) => exited(*old(kernel), *final(kernel), pid, exit_code),
            Err(e) => {
                &&& final(kernel).tasks == old(kernel).tasks
                &&& final(kernel).pool == old(kernel).pool
                &&& match old(kernel).processor.running() {
                    None => e == KernelError::NoCurrentTask,
                    Some(pid) => e == KernelError::NoSuchTask && !old(kernel).has_task(pid),
                }
            },
        },
{
    let ghost kernel0 = *kernel;
    let pid = match kernel.processor.take_current() {
        Some(pid) => pid,
        None => {
            proof {
                lemma_queue_changed(kernel0, *kernel);
            }
            return Err(KernelError::NoCurrentTask);
        },
    };
    proof {
        lemma_queue_changed(kernel0, *kernel);
    }
    let t = match kernel.find_task(pid) {
        Some(t) => t,
        None => {
            proof {
                if kernel0.has_task(pid) {
                    let u = kernel0.index_of(pid);
                    assert(kernel0.is_task(u, pid));
                    assert(kernel.is_task(u, pid));
                }
            }
            return Err(KernelError::NoSuchTask);
        },
    };
    proof {
        assert(kernel0.is_task(t as int, pid));
        kernel0.lemma_index_of(t as int, pid);
    }
    kernel.set_exit(t, exit_code);
    let children = kernel.take_children(t);
    let ghost kernel1 = *kernel;
    reparent(kernel, &children);
    let ghost kernel2 = *kernel;
    kernel.release_task_areas(t);
    proof {
        assert(kernel2.tasks@[t as int].inner().memory_set == kernel0.tasks@[t as int].inner().memory_set);
        crate::mm::memory_set::lemma_untouched_weaken(
            kernel0.pool,
            kernel.pool,
            |q: u64| kernel2.tasks@[t as int].inner().memory_set@.owns(q),
            |q: u64| kernel0.tasks@[t as int].inner().memory_set@.owns(q),
        );
        assert(forall|u: int| 0 <= u < kernel0.tasks@.len() ==> #[trigger] kernel1.tasks@[u].id()
            == kernel0.tasks@[u].id());
        assert forall|u: int| 0 <= u < kernel0.tasks@.len() && u != t implies (!children@.contains(
            kernel0.tasks@[u].id(),
        ) ==> (#[trigger] kernel.tasks@[u]).inner().parent == kernel0.tasks@[u].inner().parent) by {
            if !children@.contains(kernel0.tasks@[u].id()) {
                assert(kernel1.tasks@[u] == kernel0.tasks@[u]);
                assert(forall|j: int|
                    0 <= j < children@.len() ==> #[trigger] children@[j] != kernel1.tasks@[u].id());
                assert(kernel2.tasks@[u].inner().parent == kernel1.tasks@[u].inner().parent);
            }
        }
        if !children@.contains(pid) {
            assert(forall|j: int|
                0 <= j < children@.len() ==> #[trigger] children@[j] != kernel1.tasks@[t as int].id());
            assert(kernel2.tasks@[t as int].inner().parent == kernel1.tasks@[t as int].inner().parent);
        }
        if kernel0.has_task(INITPROC_PID) {
            let w = kernel0.index_of(INITPROC_PID);
            assert(kernel0.is_task(w, INITPROC_PID));
            assert(kernel1.is_task(w, INITPROC_PID));
            kernel1.lemma_index_of(w, INITPROC_PID);
            if pid == INITPROC_PID {
                assert(w == t);
                assert(kernel2.tasks@[w].inner().children@ =~= children@);
            }
        }
        assert forall|j: int|
            0 <= j < children@.len() && kernel0.has_task(#[trigger] children@[j])
                && children@[j] != pid implies kernel.tasks@[kernel0.index_of(
            children@[j],
        )].inner().parent == Some(INITPROC_PID) by {
            let c = children@[j];
            let w = kernel0.index_of(c);
            assert(kernel0.is_task(w, c));
            assert(kernel1.is_task(w, c));
            kernel1.lemma_index_of(w, c);
            assert(kernel2.tasks@[w].inner().parent == Some(INITPROC_PID));
            assert(w != t);
        }
    }
    Ok(pid)
}

/// What an exit does: the task, which was running, is a zombie with the exit code,
/// without children and without areas, and the frames of its pages are back in the
/// pool; the first process has the former children behind its own, in their order, and
/// every former child that is in the table has the first process as its parent; every
/// other task keeps its address space, its standing, its exit code, its contexts, its
/// children and its parent. The queue, the process numbers and the address space of the
/// kernel stay, and no frame but those of the task changes.
pub open spec fn exited(before: Kernel, after: Kernel, pid: usize, exit_code: i32) -> bool {
    let t = before.index_of(pid);
    let former = before.tasks@[t].inner();
    let inner = after.tasks@[t].inner();
    &&& before.processor.running() == Some(pid)
    &&& before.is_task(t, pid)
    &&& after.processor.running() is None
    &&& after.manager == before.manager
    &&& after.pid_allocator == before.pid_allocator
    &&& after.kernel_space == before.kernel_space
    &&& after.apps == before.apps
    &&& after.env == before.env
    &&& crate::mm::memory_set::untouched(
        before.pool,
        after.pool,
        |q: u64| former.memory_set@.owns(q),
    )
    &&& after.tasks@.len() == before.tasks@.len()
    &&& after.tasks@[t].id() == pid
    &&& inner.task_status == TaskStatus::Zombie
    &&& inner.exit_code == exit_code
    &&& inner.memory_set@.areas.len() == 0
    &&& inner.memory_set@.root == former.memory_set@.root
    &&& !former.children@.contains(pid) ==> inner.parent == former.parent
    &&& inner.trap_cx_ppn == former.trap_cx_ppn
    &&& inner.task_cx == former.task_cx
    &&& inner.base_size == former.base_size
    &&& if pid != INITPROC_PID {
        &&& inner.children@.len() == 0
        &&& before.has_task(INITPROC_PID) ==> after.tasks@[before.index_of(
            INITPROC_PID,
        )].inner().children@ == before.tasks@[before.index_of(INITPROC_PID)].inner().children@
            + former.children@
    } else {
        inner.children@ == former.children@
    }
    &&& forall|q: u64|
        crate::mm::memory_set::is_data_frame(former.memory_set@.areas, q) ==> !after.pool.is_live(q)
    &&& forall|u: int|
        0 <= u < before.tasks@.len() && u != t ==> {
            &&& (#[trigger] after.tasks@[u]).id() == before.tasks@[u].id()
            &&& after.tasks@[u].inner().memory_set == before.tasks@[u].inner().memory_set
            &&& after.tasks@[u].inner().task_status == before.tasks@[u].inner().task_status
            &&& after.tasks@[u].inner().exit_code == before.tasks@[u].inner().exit_code
            &&& after.tasks@[u].inner().trap_cx_ppn == before.tasks@[u].inner().trap_cx_ppn
            &&& after.tasks@[u].inner().task_cx == before.tasks@[u].inner().task_cx
            &&& after.tasks@[u].inner().base_size == before.tasks@[u].inner().base_size
            &&& before.tasks@[u].id() != INITPROC_PID ==> after.tasks@[u].inner().children
                == before.tasks@[u].inner().children
            &&& !former.children@.contains(before.tasks@[u].id()) ==> after.tasks@[u].inner().parent
                == before.tasks@[u].inner().parent
        }
    &&& forall|j: int|
        0 <= j < former.children@.len() && before.has_task(#[trigger] former.children@[j])
            && former.children@[j] != pid ==> after.tasks@[before.index_of(
            former.children@[j],
        )].inner().parent == Some(INITPROC_PID)
}

} // verus!
