//! The task control block: what the kernel keeps of each process.

use vstd::prelude::*;
use crate::address::PhysPageNum;
use crate::elf::elf_image_of;
use crate::kernel::{
    claim_failure, detached, is_trap_cx_area, lemma_trap_cx_frame, load_failure, spaces_ok,
    stack_len, start_failure, task_blocked,
    trap_cx_ok, Kernel,
    KernelError,
};
use crate::mm::memory_set::{
    built, copied, image_layout_of, is_data_frame, lemma_memory_set_kept, lemma_owned_live,
    lemma_program_kept, program_in_place, untouched, MemorySet,
};
use crate::task::pid::{kernel_stack_bounds, kernel_stack_position, MAX_PID};
use crate::trap::context::{user_sstatus, TrapContext};
use crate::sync::up::UPSafeCell;
use crate::task::context::TaskContext;
use crate::task::pid::{KernelStack, PidHandle};

verus! {

/// Where a task stands.
#[derive(Clone, Copy, Debug, PartialEq, Eq, Structural)]
pub enum TaskStatus {
    /// Waiting in the queue for the processor.
    Ready,
    /// On the processor.
    Running,
    /// Gone, with nothing left to collect.
    Exited,
    /// Gone, but its exit code has not been collected by its parent yet.
    Zombie,
}

/// The part of a task control block that changes while the task lives.
pub struct TaskControlBlockInner {
    /// The frame that holds the trap context.
    pub trap_cx_ppn: PhysPageNum,
    /// The size of the program in its address space: the top of its user stack.
    pub base_size: u64,
    /// Where the task stands.
    pub task_status: TaskStatus,
    /// The registers to go on with when the task gets the processor.
    pub task_cx: TaskContext,
    /// The address space.
    pub memory_set: MemorySet,
    /// The process number of the parent, if the task has one.
    pub parent: Option<usize>,
    /// The process numbers of the children, oldest first.
    pub children: Vec<usize>,
    /// The exit code, once the task is gone.
    pub exit_code: i32,
}

impl TaskControlBlockInner {
    /// The value for the address-translation register that selects the address space
    /// of the task.
    pub fn get_user_token(&self) -> (r: u64)
        ensures
            r == (8u64 << 60) | self.memory_set@.root,
    {
        self.memory_set.token()
    }

    /// The frame that holds the trap context.
    pub fn get_trap_cx(&self) -> (r: PhysPageNum)
        ensures
            r == self.trap_cx_ppn,
    {
        self.trap_cx_ppn
    }

    fn get_status(&self) -> (r: TaskStatus)
        ensures
            r == self.task_status,
    {
        self.task_status
    }

    /// Whether the task is gone and waits for its parent to collect its exit code.
    pub fn is_zombie(&self) -> (r: bool)
        ensures
            r == (self.task_status == TaskStatus::Zombie),
    {
        self.get_status() == TaskStatus::Zombie
    }
}

/// A task control block.
pub struct TaskControlBlock {
    /// The process number.
    pub pid: PidHandle,
    /// The kernel stack.
    pub kernel_stack: KernelStack,
    inner: UPSafeCell<TaskControlBlockInner>,
}

impl TaskControlBlock {
    /// The changing part of the task control block.
    pub closed spec fn inner(&self) -> TaskControlBlockInner {
        self.inner.value()
    }

    /// The process number.
    pub closed spec fn id(&self) -> usize {
        self.pid.0
    }

    /// The process that the kernel stack belongs to.
    pub closed spec fn stack_pid(&self) -> usize {
        self.kernel_stack.pid()
    }

    /// A task control block of the given parts.
    pub fn assemble(pid: PidHandle, kernel_stack: KernelStack, inner: TaskControlBlockInner) -> (r:
        Self)
        ensures
            r.id() == pid.0,
            r.stack_pid() == kernel_stack.pid(),
            r.inner() == inner,
    {
        TaskControlBlock { pid, kernel_stack, inner: UPSafeCell::new(inner) }
    }

    /// Takes the task control block apart.
    pub fn dismantle(self) -> (r: (PidHandle, KernelStack, TaskControlBlockInner))
        ensures
            r.0.0 == self.id(),
            r.1.pid() == self.stack_pid(),
            r.2 == self.inner(),
    {
        (self.pid, self.kernel_stack, self.inner.into_inner())
    }

    /// Hands out the changing part for exclusive use.
    pub fn inner_exclusive_access(&mut self) -> (r: &mut TaskControlBlockInner)
        ensures
            *r == old(self).inner(),
            final(self).inner() == *final(r),
            final(self).id() == old(self).id(),
            final(self).stack_pid() == old(self).stack_pid(),
    {
        self.inner.exclusive_access()
    }

    /// Looks at the changing part.
    pub fn inner_ref(&self) -> (r: &TaskControlBlockInner)
        ensures
            *r == self.inner(),
    {
        self.inner.get()
    }

    /// The process number.
    pub fn getpid(&self) -> (r: usize)
        ensures
            r == self.id(),
    {
        self.pid.0
    }
}

/// An address space that belongs to no task is not affected by a change of the
/// address space of the kernel.
pub proof fn lemma_detached_kept(space: MemorySet, before: Kernel, after: Kernel)
    requires
        before.wf(),
        after.wf(),
        space.wf(before.pool),
        detached(space, before.kernel_space, before.spaces()),
        after.spaces() == before.spaces(),
        untouched(before.pool, after.pool, |q: u64| after.kernel_space@.owns(q)),
        forall|q: u64|
            after.kernel_space@.owns(q) ==> before.kernel_space@.owns(q) || !before.pool.is_live(
                q,
            ),
    ensures
        space.wf(after.pool),
        detached(space, after.kernel_space, after.spaces()),
        forall|v: u64| space.mapping(after.pool, v) == space.mapping(before.pool, v),
{
    reveal(untouched);
    reveal(detached);
    reveal(spaces_ok);
    let mine = |q: u64| after.kernel_space@.owns(q);
    assert forall|q: u64| space@.owns(q) implies !mine(q) by {
        lemma_owned_live(space, space@, before.pool, q);
    }
    lemma_memory_set_kept(space, before.pool, after.pool, mine);
}

/// What taking a new task with the number `pid` into the kernel does besides: the
/// number was the next to hand out and is in use; the kernel stack of the task is
/// mapped behind the areas of the kernel; and no frame has changed but frames of the
/// address space of the new task and of the kernel.
pub open spec fn task_added(before: Kernel, after: Kernel, pid: usize) -> bool {
    &&& crate::kernel::stack_mapped(before.kernel_space, after.kernel_space, pid)
    &&& before.pid_allocator@.next() == Some(pid)
    &&& after.pid_allocator@.in_use(pid)
    &&& crate::kernel::frames_kept(
        before.pool,
        after.pool,
        after.tasks@.last().inner().memory_set,
        after.kernel_space,
    )
    &&& forall|q: u64|
        after.tasks@.last().inner().memory_set@.owns(q) ==> !before.pool.is_live(q)
    &&& forall|q: u64|
        after.kernel_space@.owns(q) ==> before.kernel_space@.owns(q) || !before.pool.is_live(q)
}

/// Taking a new task in changes no frame of a task that was there: the frame is still
/// handed out and holds the bytes it held.
pub proof fn lemma_task_added_keeps_frames(before: Kernel, after: Kernel, pid: usize, u: int, q: u64)
    requires
        before.wf(),
        task_added(before, after, pid),
        0 <= u < before.tasks@.len(),
        before.tasks@[u].inner().memory_set@.owns(q),
    ensures
        after.pool.is_live(q),
        after.pool.frame(q) == before.pool.frame(q),
{
    reveal(spaces_ok);
    reveal(untouched);
    let space = before.spaces()[u];
    assert(space == before.tasks@[u].inner().memory_set);
    assert(space.wf(before.pool));
    lemma_owned_live(space, space@, before.pool, q);
    assert(before.ids()[u] >= 0);
    assert(!before.kernel_space@.owns(q));
}

/// A frame that is handed out after an address space was made on frames that were not
/// handed out, and that is none of its frames, was handed out before.
proof fn lemma_live_after_load(
    pool0: crate::mm::phys_memory::FramePool,
    pool1: crate::mm::phys_memory::FramePool,
    space: MemorySet,
    q: u64,
)
    requires
        untouched(pool0, pool1, |q: u64| space@.owns(q)),
        forall|q: u64| space@.owns(q) ==> !pool0.is_live(q),
    ensures
        !pool1.is_live(q) ==> !pool0.is_live(q),
{
    reveal(untouched);
}

/// What starting the program in `data` as a new task with the number `pid` does: the
/// table of tasks has one more task, the new one, behind the others; its address space
/// holds the program, and the task is as `fresh_task` and `task_added` say.
pub open spec fn task_started(before: Kernel, after: Kernel, pid: usize, data: Seq<u8>) -> bool {
    &&& !before.has_task(pid)
    &&& after.tasks@.len() == before.tasks@.len() + 1
    &&& after.tasks@.subrange(0, before.tasks@.len() as int) == before.tasks@
    &&& after.tasks@.last().id() == pid
    &&& elf_image_of(data) matches Ok(image) && image_layout_of(image) matches Some((specs, user_sp))
        && program_in_place(specs, data, after.tasks@.last().inner().memory_set@.areas, after.pool)
        && fresh_task(after, after.tasks@.last(), user_sp, image.entry_point)
    &&& task_added(before, after, pid)
}

/// The `t`-th task has the trap context frame, the task context, the size and the exit
/// code it had.
pub open spec fn task_kept(before: Kernel, after: Kernel, t: int) -> bool {
    &&& after.tasks@[t].inner().trap_cx_ppn == before.tasks@[t].inner().trap_cx_ppn
    &&& after.tasks@[t].inner().task_cx == before.tasks@[t].inner().task_cx
    &&& after.tasks@[t].inner().base_size == before.tasks@[t].inner().base_size
    &&& after.tasks@[t].inner().exit_code == before.tasks@[t].inner().exit_code
}

/// What a new task is like: ready, without parent or children, with the kernel stack
/// of its number and a trap context that starts the program.
pub open spec fn fresh_task(kernel: Kernel, task: TaskControlBlock, sp: u64, entry: u64) -> bool {
    let inner = task.inner();
    let top = kernel_stack_bounds(task.id()).1;
    &&& inner.task_status == TaskStatus::Ready
    &&& inner.parent is None
    &&& inner.children@.len() == 0
    &&& inner.exit_code == 0
    &&& inner.base_size == sp
    &&& inner.task_cx.ra == kernel.env.trap_return
    &&& inner.task_cx.sp == top
    &&& inner.task_cx.s@ == Seq::new(12, |i: int| 0u64)
    &&& trap_cx_ok(inner.memory_set, inner.trap_cx_ppn, kernel.pool)
    &&& started(kernel, inner.trap_cx_ppn, inner.memory_set, sp, entry, top)
}

/// The trap context in frame `ppn` starts a program at `entry` with the stack pointer
/// `sp`: all other registers zero, user mode as the mode to return to, and the kernel's
/// address space, the kernel stack below `top` and the trap handler for the next trap.
pub open spec fn started(
    kernel: Kernel,
    ppn: PhysPageNum,
    space: MemorySet,
    sp: u64,
    entry: u64,
    top: u64,
) -> bool {
    forall|i: int|
        0 <= i < 37 ==> #[trigger] kernel.pool.memory.word(ppn.0, i) == (if i == 2 {
            sp
        } else if i < 32 {
            0
        } else if i == 32 {
            user_sstatus(kernel.env.sstatus)
        } else if i == 33 {
            entry
        } else if i == 34 {
            (8u64 << 60) | kernel.kernel_space@.root
        } else if i == 35 {
            top
        } else {
            kernel.env.trap_handler
        })
}

/// Reserves a process number and maps its kernel stack. Returns the number and the
/// address just past the stack. On failure nothing is reserved.
pub fn claim_pid(kernel: &mut Kernel) -> (r: Result<(PidHandle, u64), KernelError>)
    requires
        old(kernel).wf(),
    ensures
        final(kernel).wf(),
        final(kernel).tasks == old(kernel).tasks,
        final(kernel).manager == old(kernel).manager,
        final(kernel).processor == old(kernel).processor,
        final(kernel).apps == old(kernel).apps,
        final(kernel).env == old(kernel).env,
        final(kernel).kernel_space@.root == old(kernel).kernel_space@.root,
        final(kernel).kernel_space@.trampoline == old(kernel).kernel_space@.trampoline,
        untouched(old(kernel).pool, final(kernel).pool, |q: u64| final(kernel).kernel_space@.owns(q)),
        forall|q: u64|
            final(kernel).kernel_space@.owns(q) ==> old(kernel).kernel_space@.owns(q) || !old(kernel).pool.is_live(q),
        match r {
            Ok((handle, top)) => {
                &&& !final(kernel).has_task(handle.0)
                &&& final(kernel).pid_allocator@.in_use(handle.0)
                &&& handle.0 <= MAX_PID
                &&& top == kernel_stack_bounds(handle.0).1
                &&& old(kernel).pid_allocator@.next() == Some(handle.0)
                &&& final(kernel).pool.free_count() >= old(kernel).pool.free_count() - 3 * stack_len(
                    handle.0,
                )
                &&& crate::kernel::stack_mapped(
                    old(kernel).kernel_space,
                    final(kernel).kernel_space,
                    handle.0,
                )
            },
            Err(e) => claim_failure(*old(kernel), e) && final(kernel).kernel_space@.areas
                == old(kernel).kernel_space@.areas,
        },
{
    proof {
        reveal(untouched);
        reveal(detached);
        reveal(spaces_ok);
    }
    let ghost kernel0 = *kernel;
    let handle = match kernel.pid_allocator.allocate() {
        Some(handle) => handle,
        None => {
            proof {
                crate::mm::map_area::lemma_same_frames(kernel0.pool, kernel.pool);
                assert forall|t: int| 0 <= t < kernel.tasks@.len() implies #[trigger] kernel.task_ok(
                    t,
                ) by {
                    assert(kernel0.task_ok(t));
                }
            }
            return Err(KernelError::OutOfPids);
        },
    };
    let pid: usize = handle.0;
    proof {
        assert(kernel.spaces() == kernel0.spaces());
        assert(kernel.ids() == kernel0.ids());
        assert forall|t: int| 0 <= t < kernel.tasks@.len() implies #[trigger] kernel.task_ok(t)
            && kernel.tasks@[t].id() != pid by {
            assert(kernel0.task_ok(t));
        }
        assert(!kernel.has_task(pid)) by {
            if kernel.has_task(pid) {
                let t = choose|t: int| kernel.is_task(t, pid);
                assert(kernel.task_ok(t));
            }
        }
    }
    if pid > MAX_PID {
        kernel.pid_allocator.dealloc(pid);
        proof {
            crate::mm::map_area::lemma_same_frames(kernel0.pool, kernel.pool);
            assert forall|t: int| 0 <= t < kernel.tasks@.len() implies #[trigger] kernel.task_ok(
                t,
            ) by {
                assert(kernel0.task_ok(t));
                assert(kernel0.tasks@[t].id() != pid);
            }
        }
        return Err(KernelError::OutOfPids);
    }
    let ghost kernel1 = *kernel;
    match kernel.alloc_kernel_stack(pid) {
        Ok(top) => {
            proof {
                if kernel.has_task(pid) {
                    let t = choose|t: int| kernel.is_task(t, pid);
                    assert(kernel1.is_task(t, pid));
                }
            }
            Ok((handle, top))
        },
        Err(e) => {
            let ghost kernel2 = *kernel;
            kernel.pid_allocator.dealloc(pid);
            proof {
                assert(kernel.spaces() == kernel2.spaces());
                assert(kernel.ids() == kernel2.ids());
                assert forall|t: int|
                    0 <= t < kernel.tasks@.len() implies #[trigger] kernel.task_ok(t) by {
                    assert(kernel2.task_ok(t));
                    assert(kernel1.task_ok(t));
                    assert(kernel1.tasks@[t].id() != pid);
                }
            }
            Err(e)
        },
    }
}

/// Gives back the process number of `handle` and the kernel stack that goes with it.
pub fn release_pid(kernel: &mut Kernel, handle: PidHandle)
    requires
        old(kernel).wf(),
        !old(kernel).has_task(handle.0),
        old(kernel).pid_allocator@.in_use(handle.0),
        handle.0 <= MAX_PID,
    ensures
        final(kernel).wf(),
        final(kernel).tasks == old(kernel).tasks,
        final(kernel).manager == old(kernel).manager,
        final(kernel).processor == old(kernel).processor,
        final(kernel).apps == old(kernel).apps,
        final(kernel).env == old(kernel).env,
        final(kernel).kernel_space@.root == old(kernel).kernel_space@.root,
        final(kernel).kernel_space@.trampoline == old(kernel).kernel_space@.trampoline,
        !final(kernel).pid_allocator@.in_use(handle.0),
        final(kernel).pid_allocator@ == (crate::task::pid::PidsView {
            recycled: old(kernel).pid_allocator@.recycled.push(handle.0),
            ..old(kernel).pid_allocator@
        }),
        untouched(old(kernel).pool, final(kernel).pool, |q: u64| old(kernel).kernel_space@.owns(q)),
        forall|q: u64| final(kernel).kernel_space@.owns(q) ==> old(kernel).kernel_space@.owns(q),
        crate::kernel::stack_released(
            old(kernel).kernel_space,
            old(kernel).pool,
            final(kernel).kernel_space,
            final(kernel).pool,
            handle.0,
        ),
{
    proof {
        reveal(untouched);
        reveal(detached);
        reveal(spaces_ok);
    }
    let ghost kernel0 = *kernel;
    kernel.free_kernel_stack(handle.0);
    let ghost kernel1 = *kernel;
    kernel.pid_allocator.dealloc(handle.0);
    proof {
        assert(kernel.spaces() == kernel1.spaces());
        assert(kernel.ids() == kernel1.ids());
        assert forall|t: int| 0 <= t < kernel.tasks@.len() implies #[trigger] kernel.task_ok(t) by {
            assert(kernel1.task_ok(t));
            assert(!kernel0.is_task(t, handle.0));
        }
    }
}

impl TaskControlBlock {
    /// Makes the task of the program in `elf_data`: its address space, a process
    /// number, its kernel stack and its trap context, and takes it into the table of
    /// tasks. Returns the process number. On failure everything taken is given back.
    #[verifier::rlimit(100)]
    pub fn new(kernel: &mut Kernel, elf_data: &[u8]) -> (r: Result<usize, KernelError>)
        requires
            old(kernel).wf(),
        ensures
            final(kernel).wf(),
            final(kernel).manager == old(kernel).manager,
            final(kernel).processor == old(kernel).processor,
            final(kernel).apps == old(kernel).apps,
            final(kernel).env == old(kernel).env,
            match r {
                Ok(pid) => {
                    &&& !old(kernel).has_task(pid)
                    &&& final(kernel).tasks@.len() == old(kernel).tasks@.len() + 1
                    &&& final(kernel).tasks@.subrange(0, old(kernel).tasks@.len() as int) == old(kernel).tasks@
                    &&& final(kernel).tasks@.last().id() == pid
                    &&& elf_image_of(elf_data@) matches Ok(image) && image_layout_of(image) matches Some(
                        (specs, user_sp),
                    ) && program_in_place(
                        specs,
                        elf_data@,
                        final(kernel).tasks@.last().inner().memory_set@.areas,
                        final(kernel).pool,
                    ) && fresh_task(
                        *final(kernel),
                        final(kernel).tasks@.last(),
                        user_sp,
                        image.entry_point,
                    )
                    &&& task_added(*old(kernel), *final(kernel), pid)
                    &&& task_started(*old(kernel), *final(kernel), pid, elf_data@)
                },
                Err(e) => final(kernel).tasks == old(kernel).tasks && start_failure(
                    *old(kernel),
                    elf_data@,
                    e,
                ),
            },
    {
        let ghost kernel0 = *kernel;
        let (space, user_sp, entry) = match kernel.load_space(elf_data) {
            Ok(made) => made,
            Err(e) => {
                return Err(e);
            },
        };
        let ghost kernel1 = *kernel;
        let ghost image = elf_image_of(elf_data@)->Ok_0;
        let ghost specs = image_layout_of(image)->Some_0.0;
        proof {
            lemma_program_has_trap_cx(image, elf_data@, space, kernel.pool);
        }
        let trap_cx_ppn = match Kernel::trap_cx_frame(&space, &kernel.pool) {
            Some(ppn) => ppn,
            None => {
                return Err(KernelError::BadLayout);
            },
        };
        let (handle, top) = match claim_pid(kernel) {
            Ok(claimed) => claimed,
            Err(e) => {
                proof {
                    lemma_detached_kept(space, kernel1, *kernel);
                }
                kernel.drop_space(space);
                return Err(e);
            },
        };
        let ghost kernel2 = *kernel;
        proof {
            lemma_detached_kept(space, kernel1, kernel2);
            lemma_space_frames_kept(space, kernel1, kernel2);
        }
        let pid: usize = handle.0;
        proof {
            lemma_specs_end_with_trap_cx(image);
            lemma_trap_frame_is_last(space, kernel2.pool, trap_cx_ppn);
        }
        let cx = TrapContext::app_init_context(
            entry,
            user_sp,
            kernel.kernel_space.token(),
            top,
            kernel.env.trap_handler,
            kernel.env.sstatus,
        );
        install(kernel, handle, top, space, trap_cx_ppn, user_sp, None, &cx);
        proof {
            lemma_trap_cx_frame(space, trap_cx_ppn, kernel1.pool);
            crate::kernel::lemma_frames_kept(
                kernel0.pool,
                kernel1.pool,
                kernel2.pool,
                kernel.pool,
                space,
                kernel2.kernel_space,
                trap_cx_ppn.0,
            );
            assert forall|q: u64| kernel.kernel_space@.owns(q) implies kernel0.kernel_space@.owns(q)
                || !kernel0.pool.is_live(q) by {
                lemma_live_after_load(kernel0.pool, kernel1.pool, space, q);
            }
            assert(task_added(kernel0, *kernel, pid));
            assert(kernel.tasks@.subrange(0, kernel0.tasks@.len() as int) =~= kernel0.tasks@);
            assert forall|q: u64| space@.owns(q) implies kernel2.pool.is_live(q) by {
                lemma_owned_live(space, space@, kernel2.pool, q);
            }
            crate::mm::memory_set::lemma_untouched_weaken(
                kernel2.pool,
                kernel.pool,
                |q: u64| q == trap_cx_ppn.0,
                |q: u64| q == trap_cx_ppn.0,
            );
            lemma_program_kept_twice(
                specs,
                elf_data@,
                space,
                kernel1.pool,
                kernel2.pool,
                kernel.pool,
                trap_cx_ppn.0,
            );
            let task = kernel.tasks@.last();
            assert(program_in_place(specs, elf_data@, task.inner().memory_set@.areas, kernel.pool));
            assert(started(*kernel, trap_cx_ppn, space, user_sp, entry, top)) by {
                assert forall|i: int| 0 <= i < 37 implies #[trigger] kernel.pool.memory.word(
                    trap_cx_ppn.0,
                    i,
                ) == (if i == 2 {
                    user_sp
                } else if i < 32 {
                    0
                } else if i == 32 {
                    user_sstatus(kernel.env.sstatus)
                } else if i == 33 {
                    entry
                } else if i == 34 {
                    (8u64 << 60) | kernel.kernel_space@.root
                } else if i == 35 {
                    top
                } else {
                    kernel.env.trap_handler
                }) by {
                    assert(kernel.pool.memory.word(trap_cx_ppn.0, i) == cx.word(i));
                }
            }
            assert(fresh_task(*kernel, task, user_sp, entry));
            assert(!kernel0.has_task(pid)) by {
                if kernel0.has_task(pid) {
                    let u = choose|u: int| kernel0.is_task(u, pid);
                    assert(kernel2.is_task(u, pid));
                }
            }
        }
        Ok(pid)
    }
}

/// Takes a new task into the table of tasks: ready, with the given address space,
/// parent and kernel stack, and with `cx` as its trap context.
pub fn install(
    kernel: &mut Kernel,
    handle: PidHandle,
    top: u64,
    space: MemorySet,
    trap_cx_ppn: PhysPageNum,
    base_size: u64,
    parent: Option<usize>,
    cx: &TrapContext,
)
    requires
        old(kernel).wf(),
        space.wf(old(kernel).pool),
        detached(space, old(kernel).kernel_space, old(kernel).spaces()),
        trap_cx_ok(space, trap_cx_ppn, old(kernel).pool),
        !old(kernel).has_task(handle.0),
        old(kernel).pid_allocator@.in_use(handle.0),
        handle.0 <= MAX_PID,
    ensures
        final(kernel).wf(),
        final(kernel).manager == old(kernel).manager,
        final(kernel).processor == old(kernel).processor,
        final(kernel).apps == old(kernel).apps,
        final(kernel).env == old(kernel).env,
        final(kernel).kernel_space == old(kernel).kernel_space,
        final(kernel).pid_allocator == old(kernel).pid_allocator,
        final(kernel).tasks@.len() == old(kernel).tasks@.len() + 1,
        final(kernel).tasks@.subrange(0, old(kernel).tasks@.len() as int) == old(kernel).tasks@,
        untouched(old(kernel).pool, final(kernel).pool, |q: u64| q == trap_cx_ppn.0),
        forall|i: int|
            0 <= i < 37 ==> #[trigger] final(kernel).pool.memory.word(trap_cx_ppn.0, i) == cx.word(i),
        ({
            let task = final(kernel).tasks@.last();
            let inner = task.inner();
            &&& task.id() == handle.0
            &&& inner.memory_set == space
            &&& inner.trap_cx_ppn == trap_cx_ppn
            &&& inner.base_size == base_size
            &&& inner.task_status == TaskStatus::Ready
            &&& inner.parent == parent
            &&& inner.children@.len() == 0
            &&& inner.exit_code == 0
            &&& inner.task_cx.ra == old(kernel).env.trap_return
            &&& inner.task_cx.sp == top
            &&& inner.task_cx.s@ == Seq::new(12, |i: int| 0u64)
            &&& task.stack_pid() == handle.0
            &&& trap_cx_ok(space, trap_cx_ppn, final(kernel).pool)
        }),
{
    proof {
        reveal(untouched);
    }
    let inner = TaskControlBlockInner {
        trap_cx_ppn,
        base_size,
        task_status: TaskStatus::Ready,
        task_cx: TaskContext::goto_trap_return(top, kernel.env.trap_return),
        memory_set: space,
        parent,
        children: Vec::new(),
        exit_code: 0,
    };
    let kernel_stack = KernelStack::new(&handle);
    let task = TaskControlBlock::assemble(handle, kernel_stack, inner);
    let t: usize = kernel.tasks.len();
    kernel.adopt(task);
    kernel.write_trap_cx(t, cx);
    proof {
        assert(kernel.tasks@.subrange(0, old(kernel).tasks@.len() as int) =~= old(kernel).tasks@);
        assert(kernel.tasks@.last() == kernel.tasks@[t as int]);
        assert(kernel.task_ok(t as int));
    }
}

/// The frames of the pages of an address space that belongs to no task keep their bytes
/// when the address space of the kernel changes.
pub proof fn lemma_space_frames_kept(space: MemorySet, before: Kernel, after: Kernel)
    requires
        before.wf(),
        after.wf(),
        space.wf(before.pool),
        detached(space, before.kernel_space, before.spaces()),
        untouched(before.pool, after.pool, |q: u64| after.kernel_space@.owns(q)),
        forall|q: u64|
            after.kernel_space@.owns(q) ==> before.kernel_space@.owns(q) || !before.pool.is_live(
                q,
            ),
    ensures
        forall|q: u64| space@.owns(q) ==> #[trigger] after.pool.frame(q) == before.pool.frame(q),
{
    reveal(untouched);
    reveal(detached);
    reveal(spaces_ok);
    assert forall|q: u64| space@.owns(q) implies #[trigger] after.pool.frame(q) == before.pool.frame(
        q,
    ) by {
        lemma_owned_live(space, space@, before.pool, q);
    }
}

/// The areas of a program end with the area of the trap context page.
pub proof fn lemma_specs_end_with_trap_cx(image: crate::elf::ImageView)
    requires
        image_layout_of(image) is Some,
    ensures
        ({
            let specs = image_layout_of(image)->Some_0.0;
            &&& specs.len() >= 2
            &&& specs.last().area().has(crate::mm::map_area::TRAP_CONTEXT_VPN)
            &&& specs.last().area().map_type == crate::mm::map_area::MapType::Framed
            &&& specs.last().area().perm == 0x06
        }),
{
}

/// The address space of a program that was loaded has a trap context page.
pub proof fn lemma_program_has_trap_cx(
    image: crate::elf::ImageView,
    data: Seq<u8>,
    space: MemorySet,
    pool: crate::mm::phys_memory::FramePool,
)
    requires
        space.wf(pool),
        image_layout_of(image) matches Some((specs, _)) && crate::mm::memory_set::built(
            specs,
            data,
            space@.areas,
            pool,
        ),
    ensures
        exists|ppn: PhysPageNum| trap_cx_ok(space, ppn, pool),
{
    lemma_specs_end_with_trap_cx(image);
    let specs = image_layout_of(image)->Some_0.0;
    let a = specs.len() - 1;
    let area = space@.areas[a];
    assert(crate::mm::map_area::same_area(area, specs[a].area()) && area.complete());
    assert(crate::mm::map_area::area_ok(area, pool, space@.root, space@.owned));
    let ppn = PhysPageNum(area.frames[crate::mm::map_area::TRAP_CONTEXT_VPN - area.start]);
    assert(is_trap_cx_area(space, ppn, a));
    assert(trap_cx_ok(space, ppn, pool));
}

/// The copy of an address space with a trap context page has a trap context page.
pub proof fn lemma_copy_has_trap_cx(
    parent: MemorySet,
    parent_ppn: PhysPageNum,
    pool0: crate::mm::phys_memory::FramePool,
    child: MemorySet,
    pool: crate::mm::phys_memory::FramePool,
)
    requires
        trap_cx_ok(parent, parent_ppn, pool0),
        crate::mm::memory_set::copied(parent@.areas, child@.areas, pool),
    ensures
        exists|ppn: PhysPageNum| trap_cx_ok(child, ppn, pool),
{
    let a = choose|a: int| is_trap_cx_area(parent, parent_ppn, a);
    let area = child@.areas[a];
    assert(crate::mm::map_area::same_area(area, parent@.areas[a]));
    let ppn = PhysPageNum(area.frames[crate::mm::map_area::TRAP_CONTEXT_VPN - area.start]);
    assert(is_trap_cx_area(child, ppn, a));
    assert(trap_cx_ok(child, ppn, pool));
}

/// A program that was built stays in place while its frames keep their bytes, and
/// then the frame of the trap context gets new bytes.
pub proof fn lemma_program_kept_twice(
    specs: Seq<crate::mm::memory_set::AreaSpec>,
    data: Seq<u8>,
    space: MemorySet,
    pool0: crate::mm::phys_memory::FramePool,
    pool1: crate::mm::phys_memory::FramePool,
    pool2: crate::mm::phys_memory::FramePool,
    ppn: u64,
)
    requires
        space.wf(pool0),
        built(specs, data, space@.areas, pool0),
        specs.len() > 0,
        space@.areas.last().frames.contains(ppn),
        forall|q: u64| space@.owns(q) ==> #[trigger] pool1.frame(q) == pool0.frame(q),
        forall|q: u64| space@.owns(q) ==> pool1.is_live(q),
        untouched(pool1, pool2, |q: u64| q == ppn),
    ensures
        program_in_place(specs, data, space@.areas, pool2),
{
    reveal(untouched);
    assert forall|q: u64|
        is_data_frame(space@.areas, q) && !space@.areas.last().frames.contains(q)
            implies #[trigger] pool2.frame(q) == pool0.frame(q) by {
        assert(space@.owns(q));
        assert(pool1.frame(q) == pool0.frame(q));
    }
    lemma_program_kept(specs, data, space, pool0, pool2);
}

impl TaskControlBlock {
    /// Replaces the program of the `t`-th task by the program in `elf_data`: a new
    /// address space and a fresh trap context, with the process number and the kernel
    /// stack the task has. The frames of the former address space go back to the pool.
    /// On failure the task is as it was.
    #[verifier::rlimit(100)]
    pub fn exec(kernel: &mut Kernel, t: usize, elf_data: &[u8]) -> (r: Result<(), KernelError>)
        requires
            old(kernel).wf(),
            t < old(kernel).tasks@.len(),
            old(kernel).tasks@[t as int].inner().task_status != TaskStatus::Zombie,
        ensures
            final(kernel).wf(),
            final(kernel).manager == old(kernel).manager,
            final(kernel).processor == old(kernel).processor,
            final(kernel).apps == old(kernel).apps,
            final(kernel).env == old(kernel).env,
            match r {
                Ok(()) => executed(*old(kernel), *final(kernel), t as int, elf_data@) && program_changed(
                    *old(kernel),
                    *final(kernel),
                    t as int,
                ),
                Err(e) => final(kernel).tasks == old(kernel).tasks && load_failure(
                    elf_data@,
                    old(kernel).pool,
                    e,
                ),
            },
    {
        let ghost kernel0 = *kernel;
        let ghost former_space = kernel.spaces()[t as int];
        let (space, user_sp, entry) = match kernel.load_space(elf_data) {
            Ok(made) => made,
            Err(e) => {
                return Err(e);
            },
        };
        let ghost kernel1 = *kernel;
        let ghost image = elf_image_of(elf_data@)->Ok_0;
        let ghost specs = image_layout_of(image)->Some_0.0;
        proof {
            lemma_program_has_trap_cx(image, elf_data@, space, kernel.pool);
        }
        let trap_cx_ppn = match Kernel::trap_cx_frame(&space, &kernel.pool) {
            Some(ppn) => ppn,
            None => {
                return Err(KernelError::BadLayout);
            },
        };
        proof {
            assert(kernel0.task_ok(t as int));
            lemma_specs_end_with_trap_cx(image);
            lemma_trap_frame_is_last(space, kernel1.pool, trap_cx_ppn);
            assert forall|q: u64| space@.owns(q) implies kernel1.pool.is_live(q) by {
                lemma_owned_live(space, space@, kernel1.pool, q);
            }
        }
        let pid: usize = kernel.tasks[t].getpid();
        let former = kernel.replace_space(t, space, trap_cx_ppn, user_sp);
        let ghost kernel2 = *kernel;
        kernel.drop_space(former);
        let ghost kernel3 = *kernel;
        let (_, top) = kernel_stack_position(pid);
        let cx = TrapContext::app_init_context(
            entry,
            user_sp,
            kernel.kernel_space.token(),
            top,
            kernel.env.trap_handler,
            kernel.env.sstatus,
        );
        proof {
            assert(kernel3.tasks@[t as int] == kernel2.tasks@[t as int]);
        }
        kernel.write_trap_cx(t, &cx);
        proof {
            lemma_executed(
                kernel0,
                kernel1,
                kernel2,
                kernel3,
                *kernel,
                t as int,
                elf_data@,
                space,
                trap_cx_ppn,
                user_sp,
                entry,
                top,
                cx,
            );
            lemma_trap_cx_frame(space, trap_cx_ppn, kernel1.pool);
            crate::kernel::lemma_frames_kept(
                kernel0.pool,
                kernel1.pool,
                kernel3.pool,
                kernel.pool,
                space,
                former_space,
                kernel3.tasks@[t as int].inner().trap_cx_ppn.0,
            );
            assert(program_changed(kernel0, *kernel, t as int));
        }
        Ok(())
    }
}

/// What an exec leaves alone: the process numbers and the address space of the
/// kernel; the trap context frame apart, which is one of the new address space; and
/// every frame but frames of the former and of the new address space of the task.
pub open spec fn program_changed(before: Kernel, after: Kernel, t: int) -> bool {
    &&& after.pid_allocator == before.pid_allocator
    &&& after.kernel_space == before.kernel_space
    &&& crate::kernel::frames_kept(
        before.pool,
        after.pool,
        after.tasks@[t].inner().memory_set,
        before.tasks@[t].inner().memory_set,
    )
}

/// What an exec does: the task keeps its number, its standing, its parent and its
/// children; its address space is that of the new program, built on frames that were
/// not handed out; its trap context starts the program at its entry point; and no
/// frame of its former address space is handed out any more.
pub open spec fn executed(before: Kernel, after: Kernel, t: int, data: Seq<u8>) -> bool {
    let task0 = before.tasks@[t];
    let task1 = after.tasks@[t];
    let inner = task1.inner();
    &&& after.tasks@.len() == before.tasks@.len()
    &&& forall|u: int|
        0 <= u < before.tasks@.len() && u != t ==> #[trigger] after.tasks@[u] == before.tasks@[u]
    &&& task1.id() == task0.id()
    &&& inner.task_status == task0.inner().task_status
    &&& inner.parent == task0.inner().parent
    &&& inner.children == task0.inner().children
    &&& inner.exit_code == task0.inner().exit_code
    &&& inner.task_cx == task0.inner().task_cx
    &&& forall|q: u64| task0.inner().memory_set@.owns(q) ==> !after.pool.is_live(q)
    &&& forall|q: u64| inner.memory_set@.owns(q) ==> !before.pool.is_live(q)
    &&& elf_image_of(data) matches Ok(image) && image_layout_of(image) matches Some((specs, user_sp))
        && inner.base_size == user_sp && program_in_place(
        specs,
        data,
        inner.memory_set@.areas,
        after.pool,
    ) && trap_cx_ok(inner.memory_set, inner.trap_cx_ppn, after.pool) && started(
        after,
        inner.trap_cx_ppn,
        inner.memory_set,
        user_sp,
        image.entry_point,
        kernel_stack_bounds(task0.id()).1,
    )
}

/// The steps of an exec add up to an exec.
#[verifier::rlimit(100)]
proof fn lemma_executed(
    kernel0: Kernel,
    kernel1: Kernel,
    kernel2: Kernel,
    kernel3: Kernel,
    kernel4: Kernel,
    t: int,
    data: Seq<u8>,
    space: MemorySet,
    trap_cx_ppn: PhysPageNum,
    user_sp: u64,
    entry: u64,
    top: u64,
    cx: TrapContext,
)
    requires
        kernel0.wf(),
        kernel4.wf(),
        0 <= t < kernel0.tasks@.len(),
        // the new address space
        kernel1.same_but_pool(kernel0),
        space.wf(kernel1.pool),
        forall|q: u64| space@.owns(q) ==> !kernel0.pool.is_live(q),
        forall|q: u64| space@.owns(q) ==> kernel1.pool.is_live(q),
        elf_image_of(data) matches Ok(image) && image_layout_of(image) matches Some((specs, sp))
            && sp == user_sp && entry == image.entry_point && built(
            specs,
            data,
            space@.areas,
            kernel1.pool,
        ),
        trap_cx_ok(space, trap_cx_ppn, kernel1.pool),
        space@.areas.last().frames.contains(trap_cx_ppn.0),
        // the change of address spaces
        kernel2.pool == kernel1.pool,
        kernel2.env == kernel1.env,
        kernel2.kernel_space == kernel1.kernel_space,
        kernel2.tasks@.len() == kernel1.tasks@.len(),
        forall|u: int|
            0 <= u < kernel1.tasks@.len() && u != t ==> #[trigger] kernel2.tasks@[u]
                == kernel1.tasks@[u],
        kernel2.tasks@[t].id() == kernel1.tasks@[t].id(),
        kernel2.tasks@[t].inner() == (TaskControlBlockInner {
            memory_set: space,
            trap_cx_ppn,
            base_size: user_sp,
            ..kernel1.tasks@[t].inner()
        }),
        // the end of the former address space
        kernel3.same_but_pool(kernel2),
        forall|q: u64| kernel0.spaces()[t]@.owns(q) ==> !kernel3.pool.is_live(q),
        untouched(kernel2.pool, kernel3.pool, |q: u64| kernel0.spaces()[t]@.owns(q)),
        // the trap context
        kernel4.same_but_pool(kernel3),
        kernel4.pool.allocator == kernel3.pool.allocator,
        untouched(kernel3.pool, kernel4.pool, |q: u64| q == trap_cx_ppn.0),
        forall|i: int|
            0 <= i < 37 ==> #[trigger] kernel4.pool.memory.word(trap_cx_ppn.0, i) == cx.word(i),
        top == kernel_stack_bounds(kernel0.tasks@[t].id()).1,
        cx.x@ == Seq::new(32, |i: int| 0u64).update(2, user_sp),
        cx.sstatus == user_sstatus(kernel0.env.sstatus),
        cx.sepc == entry,
        cx.kernel_satp == (8u64 << 60) | kernel0.kernel_space@.root,
        cx.kernel_sp == top,
        cx.trap_handler == kernel0.env.trap_handler,
    ensures
        executed(kernel0, kernel4, t, data),
{
    reveal(untouched);
    let image = elf_image_of(data)->Ok_0;
    let specs = image_layout_of(image)->Some_0.0;
    let former = kernel0.spaces()[t];
    assert(former == kernel0.tasks@[t].inner().memory_set);
    assert forall|q: u64| former@.owns(q) implies !kernel4.pool.is_live(q) by {
        assert(!kernel3.pool.is_live(q));
    }
    // the new frames keep their bytes, but the frame of the trap context
    assert forall|q: u64|
        crate::mm::memory_set::is_data_frame(space@.areas, q) && !space@.areas.last().frames.contains(
            q,
        ) implies #[trigger] kernel4.pool.frame(q) == kernel1.pool.frame(q) by {
        assert(space@.owns(q));
        assert(!kernel0.pool.is_live(q));
        lemma_former_is_live(kernel0, t, q);
        assert(!former@.owns(q));
        assert(kernel3.pool.frame(q) == kernel2.pool.frame(q));
        assert(kernel3.pool.is_live(q));
    }
    lemma_program_kept(specs, data, space, kernel1.pool, kernel4.pool);
    assert forall|i: int| 0 <= i < 37 implies #[trigger] kernel4.pool.memory.word(trap_cx_ppn.0, i)
        == (if i == 2 {
        user_sp
    } else if i < 32 {
        0
    } else if i == 32 {
        user_sstatus(kernel4.env.sstatus)
    } else if i == 33 {
        entry
    } else if i == 34 {
        (8u64 << 60) | kernel4.kernel_space@.root
    } else if i == 35 {
        top
    } else {
        kernel4.env.trap_handler
    }) by {
        assert(kernel4.pool.memory.word(trap_cx_ppn.0, i) == cx.word(i));
    }
}

/// A frame of the address space of a task is handed out.
proof fn lemma_former_is_live(kernel: Kernel, t: int, q: u64)
    requires
        kernel.wf(),
        0 <= t < kernel.tasks@.len(),
    ensures
        kernel.spaces()[t]@.owns(q) ==> kernel.pool.is_live(q),
{
    reveal(spaces_ok);
    if kernel.spaces()[t]@.owns(q) {
        assert(kernel.spaces()[t].wf(kernel.pool));
        lemma_owned_live(kernel.spaces()[t], kernel.spaces()[t]@, kernel.pool, q);
    }
}

/// The trap context of a child: that of its parent, but with zero as the result of
/// the system call and with its own kernel stack.
pub open spec fn child_word(parent_word: u64, i: int, top: u64) -> u64 {
    if i == 10 {
        0
    } else if i == 35 {
        top
    } else {
        parent_word
    }
}

impl TaskControlBlock {
    /// Makes a child of the `t`-th task: a copy of its address space on frames of its
    /// own, a process number and a kernel stack of its own, and the trap context of the
    /// parent, in which the result of the system call is zero and the kernel stack is
    /// the child's. The child is ready; the parent gets it as its youngest child.
    /// Returns the process number of the child. On failure everything taken is given
    /// back.
    #[verifier::rlimit(100)]
    pub fn fork(kernel: &mut Kernel, t: usize) -> (r: Result<usize, KernelError>)
        requires
            old(kernel).wf(),
            t < old(kernel).tasks@.len(),
            old(kernel).tasks@[t as int].inner().task_status != TaskStatus::Zombie,
        ensures
            final(kernel).wf(),
            final(kernel).manager == old(kernel).manager,
            final(kernel).processor == old(kernel).processor,
            final(kernel).apps == old(kernel).apps,
            final(kernel).env == old(kernel).env,
            match r {
                Ok(pid) => forked(*old(kernel), *final(kernel), t as int, pid) && task_added(
                    *old(kernel),
                    *final(kernel),
                    pid,
                ) && task_kept(*old(kernel), *final(kernel), t as int),
                Err(e) => final(kernel).tasks == old(kernel).tasks && task_blocked(
                    *old(kernel),
                    3 + 3 * crate::mm::memory_set::total_pages(
                        old(kernel).tasks@[t as int].inner().memory_set@.areas,
                    ),
                    e,
                ),
            },
    {
        let ghost kernel0 = *kernel;
        let ghost parent_space = kernel.spaces()[t as int];
        let space = match kernel.fork_space(t) {
            Ok(space) => space,
            Err(e) => {
                return Err(e);
            },
        };
        let ghost kernel1 = *kernel;
        proof {
            assert(kernel0.task_ok(t as int));
            lemma_copy_has_trap_cx(
                parent_space,
                kernel0.tasks@[t as int].inner().trap_cx_ppn,
                kernel0.pool,
                space,
                kernel.pool,
            );
        }
        let trap_cx_ppn = match Kernel::trap_cx_frame(&space, &kernel.pool) {
            Some(ppn) => ppn,
            None => {
                return Err(KernelError::BadLayout);
            },
        };
        let (handle, top) = match claim_pid(kernel) {
            Ok(claimed) => claimed,
            Err(e) => {
                proof {
                    lemma_detached_kept(space, kernel1, *kernel);
                }
                kernel.drop_space(space);
                return Err(e);
            },
        };
        let ghost kernel2 = *kernel;
        proof {
            lemma_detached_kept(space, kernel1, kernel2);
        }
        let pid: usize = handle.0;
        let parent_pid: usize = kernel.tasks[t].getpid();
        let base_size: u64 = kernel.tasks[t].inner_ref().base_size;
        let mut cx = kernel.read_trap_cx(t);
        let ghost parent_cx = cx;
        cx.x[10] = 0;
        cx.kernel_sp = top;
        install(kernel, handle, top, space, trap_cx_ppn, base_size, Some(parent_pid), &cx);
        let ghost kernel3 = *kernel;
        proof {
            assert(kernel3.tasks@.subrange(0, kernel0.tasks@.len() as int)[t as int]
                == kernel3.tasks@[t as int]);
        }
        kernel.push_child(t, pid);
        proof {
            lemma_forked(kernel0, kernel1, kernel2, kernel3, *kernel, t as int, pid, space, trap_cx_ppn, top, parent_cx, cx);
            lemma_trap_cx_frame(space, trap_cx_ppn, kernel1.pool);
            crate::kernel::lemma_frames_kept(
                kernel0.pool,
                kernel1.pool,
                kernel2.pool,
                kernel3.pool,
                space,
                kernel2.kernel_space,
                trap_cx_ppn.0,
            );
            assert(kernel.tasks@.last() == kernel3.tasks@.last());
            assert forall|q: u64| kernel.kernel_space@.owns(q) implies kernel0.kernel_space@.owns(q)
                || !kernel0.pool.is_live(q) by {
                lemma_live_after_load(kernel0.pool, kernel1.pool, space, q);
            }
            assert(task_added(kernel0, *kernel, pid));
            assert(task_kept(kernel0, *kernel, t as int));
        }
        Ok(pid)
    }
}

/// What a fork does: the table of tasks has one more task, the child, which is ready
/// and has the parent as its parent; the parent has the child as its youngest child,
/// and is as it was otherwise; the areas of the child are those of the parent over
/// again, on frames that were not handed out; the pages that user programs can reach
/// hold the same bytes in parent and child; and the trap context of the child is that
/// of the parent, but with zero in register 10 and with the kernel stack of the child.
pub open spec fn forked(before: Kernel, after: Kernel, t: int, pid: usize) -> bool {
    let n = before.tasks@.len() as int;
    let parent0 = before.tasks@[t];
    let parent1 = after.tasks@[t];
    let child = after.tasks@[n];
    let top = kernel_stack_bounds(pid).1;
    &&& !before.has_task(pid)
    &&& after.tasks@.len() == n + 1
    &&& forall|u: int| 0 <= u < n && u != t ==> #[trigger] after.tasks@[u] == before.tasks@[u]
    &&& parent1.id() == parent0.id()
    &&& parent1.inner().memory_set == parent0.inner().memory_set
    &&& parent1.inner().task_status == parent0.inner().task_status
    &&& parent1.inner().parent == parent0.inner().parent
    &&& parent1.inner().children@ == parent0.inner().children@.push(pid)
    &&& child.id() == pid
    &&& child.inner().task_status == TaskStatus::Ready
    &&& child.inner().parent == Some(parent0.id())
    &&& child.inner().children@.len() == 0
    &&& child.inner().base_size == parent0.inner().base_size
    &&& child.inner().task_cx.ra == before.env.trap_return
    &&& child.inner().task_cx.sp == top
    &&& same_layout(parent0.inner().memory_set@.areas, child.inner().memory_set@.areas)
    &&& forall|q: u64| child.inner().memory_set@.owns(q) ==> !before.pool.is_live(q)
    &&& forall|a: int, i: int|
        0 <= a < parent0.inner().memory_set@.areas.len() && 0 <= i
            < child.inner().memory_set@.areas[a].frames.len()
            && user_area(parent0.inner().memory_set@.areas[a]) ==> after.pool.frame(
            #[trigger] child.inner().memory_set@.areas[a].frames[i],
        ) == after.pool.frame(parent0.inner().memory_set@.areas[a].frames[i]) && after.pool.frame(
            parent0.inner().memory_set@.areas[a].frames[i],
        ) == before.pool.frame(parent0.inner().memory_set@.areas[a].frames[i])
    &&& forall|i: int|
        0 <= i < 37 ==> #[trigger] after.pool.memory.word(child.inner().trap_cx_ppn.0, i)
            == child_word(before.pool.memory.word(parent0.inner().trap_cx_ppn.0, i), i, top)
}

/// After a fork, every page that user programs can reach lies on different frames in
/// parent and child, and both frames hold the bytes that the frame of the parent held.
pub proof fn lemma_fork_pages(before: Kernel, after: Kernel, t: int, pid: usize, a: int, i: int)
    requires
        before.wf(),
        0 <= t < before.tasks@.len(),
        forked(before, after, t, pid),
        0 <= a < before.tasks@[t].inner().memory_set@.areas.len(),
        0 <= i < before.tasks@[t].inner().memory_set@.areas[a].frames.len(),
        user_area(before.tasks@[t].inner().memory_set@.areas[a]),
    ensures
        ({
            let parent = before.tasks@[t].inner().memory_set@.areas[a];
            let child = after.tasks@[before.tasks@.len() as int].inner().memory_set@.areas[a];
            &&& crate::mm::map_area::same_area(child, parent)
            &&& child.frames.len() == parent.frames.len()
            &&& child.frames[i] != parent.frames[i]
            &&& after.pool.frame(child.frames[i]) == before.pool.frame(parent.frames[i])
            &&& after.pool.frame(parent.frames[i]) == before.pool.frame(parent.frames[i])
        }),
{
    reveal(spaces_ok);
    let space = before.tasks@[t].inner().memory_set;
    let child_space = after.tasks@[before.tasks@.len() as int].inner().memory_set;
    let p = space@.areas[a].frames[i];
    let c = child_space@.areas[a].frames[i];
    assert(before.spaces()[t] == space);
    assert(space.wf(before.pool));
    assert(is_data_frame(space@.areas, p));
    assert(is_data_frame(child_space@.areas, c));
    lemma_owned_live(space, space@, before.pool, p);
}

/// Whether user programs can reach the pages of the area.
pub open spec fn user_area(a: crate::mm::map_area::AreaView) -> bool {
    a.perm & 0x10 == 0x10
}

/// The areas `dst` have the pages, the types and the permissions of the areas `src`,
/// and are all mapped.
pub open spec fn same_layout(
    src: Seq<crate::mm::map_area::AreaView>,
    dst: Seq<crate::mm::map_area::AreaView>,
) -> bool {
    &&& dst.len() == src.len()
    &&& forall|a: int|
        0 <= a < src.len() ==> crate::mm::map_area::same_area(#[trigger] dst[a], src[a])
            && dst[a].complete() && dst[a].frames.len() == src[a].frames.len()
}

/// The steps of a fork add up to a fork.
#[verifier::rlimit(100)]
proof fn lemma_forked(
    kernel0: Kernel,
    kernel1: Kernel,
    kernel2: Kernel,
    kernel3: Kernel,
    kernel4: Kernel,
    t: int,
    pid: usize,
    space: MemorySet,
    trap_cx_ppn: PhysPageNum,
    top: u64,
    parent_cx: TrapContext,
    cx: TrapContext,
)
    requires
        kernel0.wf(),
        kernel1.wf(),
        kernel2.wf(),
        kernel3.wf(),
        kernel4.wf(),
        0 <= t < kernel0.tasks@.len(),
        kernel0.tasks@[t].inner().task_status != TaskStatus::Zombie,
        // the copy of the address space
        kernel1.same_but_pool(kernel0),
        space.wf(kernel1.pool),
        detached(space, kernel1.kernel_space, kernel1.spaces()),
        forall|q: u64| space@.owns(q) ==> !kernel0.pool.is_live(q),
        copied(kernel0.spaces()[t]@.areas, space@.areas, kernel1.pool),
        crate::mm::memory_set::data_kept(kernel0.spaces()[t]@.areas, kernel0.pool, kernel1.pool),
        trap_cx_ok(space, trap_cx_ppn, kernel1.pool),
        // the process number and the kernel stack
        kernel2.tasks == kernel1.tasks,
        kernel2.env == kernel1.env,
        untouched(kernel1.pool, kernel2.pool, |q: u64| kernel2.kernel_space@.owns(q)),
        forall|q: u64|
            kernel2.kernel_space@.owns(q) ==> kernel1.kernel_space@.owns(q) || !kernel1.pool.is_live(
                q,
            ),
        !kernel2.has_task(pid),
        top == kernel_stack_bounds(pid).1,
        // the trap context
        forall|i: int|
            0 <= i < 37 ==> #[trigger] parent_cx.word(i) == kernel2.pool.memory.word(
                kernel2.tasks@[t].inner().trap_cx_ppn.0,
                i,
            ),
        forall|i: int| 0 <= i < 37 ==> #[trigger] cx.word(i) == child_word(parent_cx.word(i), i, top),
        // the new task
        kernel3.env == kernel2.env,
        kernel3.tasks@.len() == kernel2.tasks@.len() + 1,
        kernel3.tasks@.subrange(0, kernel2.tasks@.len() as int) == kernel2.tasks@,
        untouched(kernel2.pool, kernel3.pool, |q: u64| q == trap_cx_ppn.0),
        forall|i: int|
            0 <= i < 37 ==> #[trigger] kernel3.pool.memory.word(trap_cx_ppn.0, i) == cx.word(i),
        ({
            let task = kernel3.tasks@.last();
            let inner = task.inner();
            &&& task.id() == pid
            &&& inner.memory_set == space
            &&& inner.trap_cx_ppn == trap_cx_ppn
            &&& inner.base_size == kernel0.tasks@[t].inner().base_size
            &&& inner.task_status == TaskStatus::Ready
            &&& inner.parent == Some(kernel0.tasks@[t].id())
            &&& inner.children@.len() == 0
            &&& inner.task_cx.ra == kernel2.env.trap_return
            &&& inner.task_cx.sp == top
        }),
        // the parent and its child
        kernel4.same_but_task(kernel3, t),
        kernel4.tasks@[t].inner().children@ == kernel3.tasks@[t].inner().children@.push(pid),
        kernel4.tasks@[t].inner().task_status == kernel3.tasks@[t].inner().task_status,
        kernel4.tasks@[t].inner().parent == kernel3.tasks@[t].inner().parent,
    ensures
        forked(kernel0, kernel4, t, pid),
{
    reveal(untouched);
    reveal(detached);
    reveal(spaces_ok);
    let n = kernel0.tasks@.len() as int;
    let parent = kernel0.spaces()[t];
    let areas0 = parent@.areas;
    let areas1 = space@.areas;
    assert(kernel0.task_ok(t));
    assert(parent.wf(kernel0.pool));
    assert(kernel3.tasks@.last() == kernel3.tasks@[n]);
    assert forall|u: int| 0 <= u < n implies #[trigger] kernel3.tasks@[u] == kernel0.tasks@[u] by {
        assert(kernel3.tasks@.subrange(0, n)[u] == kernel3.tasks@[u]);
    }
    assert(!kernel0.has_task(pid)) by {
        if kernel0.has_task(pid) {
            let u = choose|u: int| kernel0.is_task(u, pid);
            assert(kernel2.is_task(u, pid));
        }
    }
    let parent_ppn = kernel0.tasks@[t].inner().trap_cx_ppn.0;
    lemma_trap_cx_frame(parent, kernel0.tasks@[t].inner().trap_cx_ppn, kernel0.pool);
    lemma_trap_cx_frame(space, trap_cx_ppn, kernel1.pool);
    // frames of the parent keep their bytes from the copy on
    assert forall|q: u64| parent@.owns(q) || space@.owns(q) implies #[trigger] kernel2.pool.frame(
        q,
    ) == kernel1.pool.frame(q) && kernel1.pool.is_live(q) by {
        if parent@.owns(q) {
            assert(kernel1.spaces()[t] == parent);
            assert(kernel1.spaces()[t].wf(kernel1.pool));
            lemma_owned_live(parent, parent@, kernel1.pool, q);
            assert(kernel1.spaces()[t]@.owns(q));
        } else {
            lemma_owned_live(space, space@, kernel1.pool, q);
        }
    }
    assert(parent_ppn != trap_cx_ppn.0) by {
        lemma_owned_live(parent, parent@, kernel0.pool, parent_ppn);
        assert(space@.owns(trap_cx_ppn.0));
    }
    assert forall|i: int| 0 <= i < 37 implies #[trigger] kernel4.pool.memory.word(trap_cx_ppn.0, i)
        == child_word(kernel0.pool.memory.word(parent_ppn, i), i, top) by {
        assert(kernel3.pool.memory.word(trap_cx_ppn.0, i) == cx.word(i));
        assert(kernel2.pool.frame(parent_ppn) == kernel1.pool.frame(parent_ppn));
        lemma_trap_frame_kept(parent, kernel0.pool, kernel1.pool, parent_ppn);
    }
    assert forall|a: int, i: int|
        0 <= a < areas0.len() && 0 <= i < areas1[a].frames.len() && user_area(
            areas0[a],
        ) implies kernel4.pool.frame(#[trigger] areas1[a].frames[i]) == kernel4.pool.frame(
        areas0[a].frames[i],
    ) && kernel4.pool.frame(areas0[a].frames[i]) == kernel0.pool.frame(areas0[a].frames[i]) by {
        let c = areas1[a].frames[i];
        let p = areas0[a].frames[i];
        assert(crate::mm::memory_set::is_data_frame(areas1, c));
        assert(crate::mm::memory_set::is_data_frame(areas0, p));
        assert(space@.owns(c) && parent@.owns(p));
        assert(kernel1.pool.frame(c) == kernel1.pool.frame(p));
        assert(kernel1.pool.frame(p) == kernel0.pool.frame(p));
        assert(kernel2.pool.frame(c) == kernel1.pool.frame(c));
        assert(kernel2.pool.frame(p) == kernel1.pool.frame(p));
        lemma_owned_live(parent, parent@, kernel0.pool, p);
        assert(p != trap_cx_ppn.0);
        // the frame of the trap context of the child lies in no area for user programs
        assert(c != trap_cx_ppn.0) by {
            lemma_user_frame_is_no_trap_frame(space, kernel1.pool, trap_cx_ppn.0, a, i);
        }
        assert(kernel2.pool.is_live(c) && kernel2.pool.is_live(p)) by {
            lemma_owned_live(space, space@, kernel1.pool, c);
            assert(kernel1.spaces()[t] == parent);
            assert(kernel1.spaces()[t].wf(kernel1.pool));
            lemma_owned_live(parent, parent@, kernel1.pool, p);
            assert(!kernel2.kernel_space@.owns(c));
            assert(!kernel2.kernel_space@.owns(p)) by {
                assert(kernel1.spaces()[t]@.owns(p));
            }
        }
    }
}

/// The frame of the trap context keeps its bytes while the frames of the pages of its
/// address space keep theirs.
proof fn lemma_trap_frame_kept(
    space: MemorySet,
    pool0: crate::mm::phys_memory::FramePool,
    pool1: crate::mm::phys_memory::FramePool,
    ppn: u64,
)
    requires
        crate::mm::memory_set::is_data_frame(space@.areas, ppn),
        crate::mm::memory_set::data_kept(space@.areas, pool0, pool1),
    ensures
        pool1.frame(ppn) == pool0.frame(ppn),
{
    let (a, i) = choose|a: int, i: int|
        0 <= a < space@.areas.len() && 0 <= i < space@.areas[a].frames.len()
            && #[trigger] space@.areas[a].frames[i] == ppn;
    assert(pool1.frame(space@.areas[a].frames[i]) == pool0.frame(space@.areas[a].frames[i]));
}

/// The frame of the trap context, whose page user programs cannot reach, is no frame
/// of an area that user programs can reach.
proof fn lemma_user_frame_is_no_trap_frame(
    space: MemorySet,
    pool: crate::mm::phys_memory::FramePool,
    ppn: u64,
    a: int,
    i: int,
)
    requires
        space.wf(pool),
        trap_cx_ok(space, PhysPageNum(ppn), pool),
        0 <= a < space@.areas.len(),
        0 <= i < space@.areas[a].frames.len(),
        user_area(space@.areas[a]),
    ensures
        space@.areas[a].frames[i] != ppn,
{
    let area = space@.areas[a];
    let q = area.frames[i];
    if q == ppn {
        let b = choose|b: int| is_trap_cx_area(space, PhysPageNum(ppn), b);
        let other = space@.areas[b];
        let j = crate::mm::map_area::TRAP_CONTEXT_VPN - other.start;
        assert(crate::mm::map_area::area_ok(area, pool, space@.root, space@.owned));
        assert(crate::mm::map_area::area_ok(other, pool, space@.root, space@.owned));
        assert(space.home()(space@.areas[b].frames[j]) == other.start + j);
        assert(space.home()(space@.areas[a].frames[i]) == area.start + i);
        if a < b {
            assert(space@.areas[a].end <= space@.areas[b].start || space@.areas[b].end
                <= space@.areas[a].start);
        } else if b < a {
            assert(space@.areas[b].end <= space@.areas[a].start || space@.areas[a].end
                <= space@.areas[b].start);
        }
        assert(0x06u8 & 0x10 != 0x10) by (bit_vector);
    }
}

/// In an address space whose last area holds the trap context page, the frame of the
/// trap context is a frame of that area.
pub proof fn lemma_trap_frame_is_last(
    space: MemorySet,
    pool: crate::mm::phys_memory::FramePool,
    ppn: PhysPageNum,
)
    requires
        space.wf(pool),
        space@.areas.len() > 0,
        space@.areas.last().has(crate::mm::map_area::TRAP_CONTEXT_VPN),
        trap_cx_ok(space, ppn, pool),
    ensures
        space@.areas.last().frames.contains(ppn.0),
{
    let n = space@.areas.len() as int;
    let b = choose|b: int| is_trap_cx_area(space, ppn, b);
    if b < n - 1 {
        assert(space@.areas[b].end <= space@.areas[n - 1].start || space@.areas[n - 1].end
            <= space@.areas[b].start);
    }
    let area = space@.areas[n - 1];
    assert(area.frames[crate::mm::map_area::TRAP_CONTEXT_VPN - area.start] == ppn.0);
}

} // verus!
