//! The processor: which task runs on it, and the context of the idle loop.

use vstd::prelude::*;
use crate::kernel::{Kernel, KernelError};
use crate::task::context::TaskContext;
use crate::task::task::TaskStatus;
use crate::trap::context::TrapContext;

verus! {

/// The state of the one processor.
pub struct Processor {
    current: Option<usize>,
    idle_task_cx: TaskContext,
}

impl Processor {
    /// The process number of the task on the processor, if there is one.
    pub closed spec fn running(&self) -> Option<usize> {
        self.current
    }

    /// The context of the idle loop.
    pub closed spec fn idle_cx(&self) -> TaskContext {
        self.idle_task_cx
    }

    /// A processor without a task, whose idle loop has not run yet: its context holds
    /// zero in every register.
    pub fn new() -> (r: Self)
        ensures
            r.running() is None,
            r.idle_cx().ra == 0,
            r.idle_cx().sp == 0,
            r.idle_cx().s@ == Seq::new(12, |i: int| 0u64),
    {
        Processor { current: None, idle_task_cx: TaskContext::zero_init() }
    }

    /// Takes the task off the processor.
    pub fn take_current(&mut self) -> (r: Option<usize>)
        ensures
            r == old(self).running(),
            final(self).running() is None,
            final(self).idle_cx() == old(self).idle_cx(),
    {
        self.current.take()
    }

    /// The process number of the task on the processor, if there is one.
    pub fn current(&self) -> (r: Option<usize>)
        ensures
            r == self.running(),
    {
        self.current
    }

    /// Puts task `pid` on the processor.
    pub fn set_current(&mut self, pid: usize)
        ensures
            final(self).running() == Some(pid),
            final(self).idle_cx() == old(self).idle_cx(),
    {
        self.current = Some(pid);
    }

    /// The context of the idle loop.
    pub fn get_idle_task_cx(&self) -> (r: TaskContext)
        ensures
            r == self.idle_cx(),
    {
        self.idle_task_cx
    }

    /// Keeps `cx` as the context of the idle loop.
    pub fn set_idle_task_cx(&mut self, cx: TaskContext)
        ensures
            final(self).idle_cx() == cx,
            final(self).running() == old(self).running(),
    {
        self.idle_task_cx = cx;
    }
}

/// Takes the running task off the processor of `kernel`. Returns its process number.
pub fn take_current_task(kernel: &mut Kernel) -> (r: Option<usize>)
    requires
        old(kernel).wf(),
    ensures
        final(kernel).wf(),
        r == old(kernel).processor.running(),
        final(kernel).processor.running() is None,
        final(kernel).pool == old(kernel).pool,
        final(kernel).kernel_space == old(kernel).kernel_space,
        final(kernel).pid_allocator == old(kernel).pid_allocator,
        final(kernel).tasks == old(kernel).tasks,
        final(kernel).manager == old(kernel).manager,
        final(kernel).apps == old(kernel).apps,
        final(kernel).env == old(kernel).env,
{
    let r = kernel.processor.take_current();
    proof {
        crate::task::lemma_queue_changed(*old(kernel), *kernel);
    }
    r
}

/// The process number of the running task.
pub fn current_task(kernel: &Kernel) -> (r: Option<usize>)
    ensures
        r == kernel.processor.running(),
{
    kernel.processor.current()
}

/// The place in the table of the running task.
pub fn current_index(kernel: &Kernel) -> (r: Result<usize, KernelError>)
    requires
        kernel.wf(),
    ensures
        match r {
            Ok(t) => kernel.processor.running() matches Some(pid) && kernel.is_task(t as int, pid)
                && kernel.index_of(pid) == t,
            Err(e) => match kernel.processor.running() {
                None => e == KernelError::NoCurrentTask,
                Some(pid) => e == KernelError::NoSuchTask && !kernel.has_task(pid),
            },
        },
{
    match kernel.processor.current() {
        None => Err(KernelError::NoCurrentTask),
        Some(pid) => match kernel.find_task(pid) {
            Some(t) => {
                proof {
                    kernel.lemma_index_of(t as int, pid);
                }
                Ok(t)
            },
            None => Err(KernelError::NoSuchTask),
        },
    }
}

/// The value for the address-translation register that selects the address space of
/// the running task.
pub fn current_user_token(kernel: &Kernel) -> (r: Result<u64, KernelError>)
    requires
        kernel.wf(),
    ensures
        match r {
            Ok(token) => kernel.processor.running() matches Some(pid) && kernel.has_task(pid)
                && token == (8u64 << 60) | kernel.tasks@[kernel.index_of(
                pid,
            )].inner().memory_set@.root,
            Err(e) => match kernel.processor.running() {
                None => e == KernelError::NoCurrentTask,
                Some(pid) => e == KernelError::NoSuchTask && !kernel.has_task(pid),
            },
        },
{
    match current_index(kernel) {
        Ok(t) => Ok(kernel.tasks[t].inner_ref().get_user_token()),
        Err(e) => Err(e),
    }
}

/// Why there is no task to go on with, where there is none: no task is on the
/// processor; or the task on the processor is not in the table, or is a zombie.
pub open spec fn no_live_task(kernel: Kernel, e: KernelError) -> bool {
    match kernel.processor.running() {
        None => e == KernelError::NoCurrentTask,
        Some(pid) => e == KernelError::NoSuchTask && (!kernel.has_task(pid)
            || kernel.tasks@[kernel.index_of(pid)].inner().task_status == TaskStatus::Zombie),
    }
}

/// The trap context of the running task.
pub fn current_trap_cx(kernel: &Kernel) -> (r: Result<TrapContext, KernelError>)
    requires
        kernel.wf(),
    ensures
        match r {
            Ok(cx) => kernel.processor.running() matches Some(pid) && kernel.has_task(pid) && ({
                let inner = kernel.tasks@[kernel.index_of(pid)].inner();
                &&& inner.task_status != TaskStatus::Zombie
                &&& forall|i: int|
                    0 <= i < 37 ==> #[trigger] cx.word(i) == kernel.pool.memory.word(
                        inner.trap_cx_ppn.0,
                        i,
                    )
            }),
            Err(e) => no_live_task(*kernel, e),
        },
{
    match current_index(kernel) {
        Ok(t) => {
            if kernel.tasks[t].inner_ref().is_zombie() {
                Err(KernelError::NoSuchTask)
            } else {
                Ok(kernel.read_trap_cx(t))
            }
        },
        Err(e) => Err(e),
    }
}

} // verus!
