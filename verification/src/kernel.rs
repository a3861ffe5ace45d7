//! The kernel as a whole: the pool of frames, the address spaces, the tasks, the queue
//! and the processor.

use vstd::prelude::*;
use crate::address::{PhysPageNum, VirtAddr, VirtPageNum};
use crate::loader::App;
use crate::mm::map_area::{lemma_live_has, MapPermission, MAP_R, MAP_W};
use crate::mm::memory_set::{
    built, framed_area, image_layout_of, is_data_frame, lemma_data_changed, lemma_memory_set_kept,
    lemma_owned_live, lemma_pushed_owns, loaded, pushed, range_free, untouched, BuildError, KernelLayout,
    LoadError, MemorySet, copied,
};
use crate::elf::elf_image_of;
use crate::mm::map_area::{area_ok, TRAP_CONTEXT_VPN};
use crate::task::pid::{kernel_stack_bounds, kernel_stack_position};
use crate::trap::context::TrapContext;
use crate::mm::page_table::{mapping, pte_bits};
use crate::mm::phys_memory::FramePool;
use crate::task::manager::TaskManager;
use crate::task::pid::{PidAllocator, MAX_PID};
use crate::task::processor::Processor;
use crate::task::task::{TaskControlBlock, TaskControlBlockInner, TaskStatus};

verus! {

/// What the kernel is told about the machine and itself when it starts.
#[derive(Clone, Copy, Debug)]
pub struct KernelEnv {
    /// The address of the trap handler.
    pub trap_handler: u64,
    /// The address of the way back to user mode.
    pub trap_return: u64,
    /// The status register of the supervisor, as read when the kernel started.
    pub sstatus: u64,
}

/// Why the kernel cannot go on. Each of these stops the kernel.
#[derive(Clone, Copy, Debug, PartialEq, Eq, Structural)]
pub enum KernelError {
    /// The pool has no frame left.
    OutOfFrames,
    /// The process numbers have run out.
    OutOfPids,
    /// The layout of the kernel, or of a program, does not fit.
    BadLayout,
    /// The bytes of a program hold no program.
    BadProgram,
    /// The place of a kernel stack is taken.
    StackInUse,
    /// No task is on the processor.
    NoCurrentTask,
    /// A task that should be there is not.
    NoSuchTask,
    /// A read of more or less than one character.
    UnsupportedRead,
    /// A trap with a cause that is not handled.
    UnsupportedTrap,
    /// An address of a user program that cannot be reached.
    BadAddress,
    /// A trap from the kernel itself.
    KernelTrap,
}

/// The kernel.
pub struct Kernel {
    /// The pool of physical frames.
    pub pool: FramePool,
    /// The address space of the kernel.
    pub kernel_space: MemorySet,
    /// The allocator of process numbers.
    pub pid_allocator: PidAllocator,
    /// The task control blocks, zombies included.
    pub tasks: Vec<TaskControlBlock>,
    /// The queue of the tasks that are ready.
    pub manager: TaskManager,
    /// The processor.
    pub processor: Processor,
    /// The programs that can be started.
    pub apps: Vec<App>,
    /// What the kernel was told when it started.
    pub env: KernelEnv,
    /// For each frame that an address space owns, the owner: a process number, or -1
    /// for the kernel.
    pub owner: Ghost<spec_fn(u64) -> int>,
}

/// The address spaces are consistent with the pool, and no frame has two owners:
/// `owner` names the owner of each frame, -1 for the kernel.
#[verifier::opaque]
pub open spec fn spaces_ok(
    pool: FramePool,
    kernel_space: MemorySet,
    spaces: Seq<MemorySet>,
    ids: Seq<int>,
    owner: spec_fn(u64) -> int,
) -> bool {
    &&& pool.wf()
    &&& kernel_space.wf(pool)
    &&& spaces.len() == ids.len()
    &&& forall|t: int| 0 <= t < spaces.len() ==> (#[trigger] spaces[t]).wf(pool)
    &&& forall|t: int| 0 <= t < ids.len() ==> #[trigger] ids[t] >= 0
    &&& forall|t: int, u: int|
        0 <= t < ids.len() && 0 <= u < ids.len() && t != u ==> #[trigger] ids[t] != #[trigger] ids[u]
    &&& forall|q: u64| #[trigger] kernel_space@.owns(q) ==> owner(q) == -1
    &&& forall|t: int, q: u64|
        0 <= t < spaces.len() && #[trigger] spaces[t]@.owns(q) ==> owner(q) == ids[t]
}

/// `owner` with `id` as the owner of the frames that `space` owns.
pub open spec fn owner_with(owner: spec_fn(u64) -> int, space: MemorySet, id: int) -> spec_fn(
    u64,
) -> int {
    |q: u64|
        if space@.owns(q) {
            id
        } else {
            owner(q)
        }
}

/// An operation on the address space of one task, which takes only frames that were
/// not handed out and touches only its own, leaves all address spaces consistent.
pub proof fn lemma_task_space_changed(
    pool0: FramePool,
    pool1: FramePool,
    kernel_space: MemorySet,
    spaces: Seq<MemorySet>,
    ids: Seq<int>,
    owner: spec_fn(u64) -> int,
    t: int,
    after: MemorySet,
)
    requires
        spaces_ok(pool0, kernel_space, spaces, ids, owner),
        0 <= t < spaces.len(),
        pool1.wf(),
        after.wf(pool1),
        untouched(pool0, pool1, |q: u64| spaces[t]@.owns(q) || after@.owns(q)),
        forall|q: u64| after@.owns(q) ==> spaces[t]@.owns(q) || !pool0.is_live(q),
    ensures
        spaces_ok(
            pool1,
            kernel_space,
            spaces.update(t, after),
            ids,
            owner_with(owner, after, ids[t]),
        ),
        forall|u: int, v: u64|
            0 <= u < spaces.len() && u != t ==> #[trigger] spaces[u].mapping(pool1, v)
                == spaces[u].mapping(pool0, v),
{
    reveal(untouched);
    reveal(spaces_ok);
    reveal(detached);
    let mine = |q: u64| spaces[t]@.owns(q) || after@.owns(q);
    let owner1 = owner_with(owner, after, ids[t]);
    let spaces1 = spaces.update(t, after);
    assert forall|q: u64| kernel_space@.owns(q) implies !mine(q) by {
        lemma_owned_live(kernel_space, kernel_space@, pool0, q);
    }
    lemma_memory_set_kept(kernel_space, pool0, pool1, mine);
    assert forall|u: int| 0 <= u < spaces1.len() implies (#[trigger] spaces1[u]).wf(pool1) by {
        if u != t {
            assert(spaces[u].wf(pool0));
            assert forall|q: u64| spaces[u]@.owns(q) implies !mine(q) by {
                lemma_owned_live(spaces[u], spaces[u]@, pool0, q);
                assert(ids[u] != ids[t]);
            }
            lemma_memory_set_kept(spaces[u], pool0, pool1, mine);
        }
    }
    assert forall|u: int, v: u64| 0 <= u < spaces.len() && u != t implies #[trigger] spaces[u].mapping(
        pool1,
        v,
    ) == spaces[u].mapping(pool0, v) by {
        assert(spaces[u].wf(pool0));
        assert forall|q: u64| spaces[u]@.owns(q) implies !mine(q) by {
            lemma_owned_live(spaces[u], spaces[u]@, pool0, q);
            assert(ids[u] != ids[t]);
        }
        lemma_memory_set_kept(spaces[u], pool0, pool1, mine);
    }
    assert forall|q: u64| #[trigger] kernel_space@.owns(q) implies owner1(q) == -1 by {
        lemma_owned_live(kernel_space, kernel_space@, pool0, q);
        assert(ids[t] >= 0);
    }
    assert forall|u: int, q: u64|
        0 <= u < spaces1.len() && #[trigger] spaces1[u]@.owns(q) implies owner1(q) == ids[u] by {
        if u != t {
            assert(spaces[u]@.owns(q));
            lemma_owned_live(spaces[u], spaces[u]@, pool0, q);
            assert(ids[u] != ids[t]);
        }
    }
}

/// An operation on the address space of the kernel, which takes only frames that were
/// not handed out and touches only its own, leaves all address spaces consistent.
pub proof fn lemma_kernel_space_changed(
    pool0: FramePool,
    pool1: FramePool,
    kernel_space: MemorySet,
    spaces: Seq<MemorySet>,
    ids: Seq<int>,
    owner: spec_fn(u64) -> int,
    after: MemorySet,
)
    requires
        spaces_ok(pool0, kernel_space, spaces, ids, owner),
        pool1.wf(),
        after.wf(pool1),
        untouched(pool0, pool1, |q: u64| kernel_space@.owns(q) || after@.owns(q)),
        forall|q: u64| after@.owns(q) ==> kernel_space@.owns(q) || !pool0.is_live(q),
    ensures
        spaces_ok(pool1, after, spaces, ids, owner_with(owner, after, -1)),
        forall|u: int, v: u64|
            0 <= u < spaces.len() ==> #[trigger] spaces[u].mapping(pool1, v) == spaces[u].mapping(
                pool0,
                v,
            ),
{
    reveal(untouched);
    reveal(spaces_ok);
    reveal(detached);
    let mine = |q: u64| kernel_space@.owns(q) || after@.owns(q);
    let owner1 = owner_with(owner, after, -1);
    assert forall|u: int| 0 <= u < spaces.len() implies (#[trigger] spaces[u]).wf(pool1) by {
        assert(spaces[u].wf(pool0));
        assert forall|q: u64| spaces[u]@.owns(q) implies !mine(q) by {
            lemma_owned_live(spaces[u], spaces[u]@, pool0, q);
            assert(ids[u] >= 0);
        }
        lemma_memory_set_kept(spaces[u], pool0, pool1, mine);
    }
    assert forall|u: int, v: u64| 0 <= u < spaces.len() implies #[trigger] spaces[u].mapping(
        pool1,
        v,
    ) == spaces[u].mapping(pool0, v) by {
        assert(spaces[u].wf(pool0));
        assert forall|q: u64| spaces[u]@.owns(q) implies !mine(q) by {
            lemma_owned_live(spaces[u], spaces[u]@, pool0, q);
            assert(ids[u] >= 0);
        }
        lemma_memory_set_kept(spaces[u], pool0, pool1, mine);
    }
    assert forall|u: int, q: u64|
        0 <= u < spaces.len() && #[trigger] spaces[u]@.owns(q) implies owner1(q) == ids[u] by {
        lemma_owned_live(spaces[u], spaces[u]@, pool0, q);
        assert(ids[u] >= 0);
    }
}

/// The frame `ppn` holds the trap context of the address space: it is the frame of
/// the trap context page, which lies in a framed area that is readable and writable,
/// and out of reach for user programs.
pub open spec fn trap_cx_ok(space: MemorySet, ppn: PhysPageNum, pool: FramePool) -> bool {
    exists|a: int| is_trap_cx_area(space, ppn, a)
}

/// Whether the `a`-th area of the address space holds the trap context page, on frame
/// `ppn`.
pub open spec fn is_trap_cx_area(space: MemorySet, ppn: PhysPageNum, a: int) -> bool {
    let area = space@.areas[a];
    &&& 0 <= a < space@.areas.len()
    &&& area.has(TRAP_CONTEXT_VPN)
    &&& area.map_type == crate::mm::map_area::MapType::Framed
    &&& area.perm == 0x06
    &&& TRAP_CONTEXT_VPN - area.start < area.frames.len()
    &&& area.frames[TRAP_CONTEXT_VPN - area.start] == ppn.0
}

/// The frame of the trap context is a frame of a page of the address space.
pub proof fn lemma_trap_cx_frame(space: MemorySet, ppn: PhysPageNum, pool: FramePool)
    requires
        trap_cx_ok(space, ppn, pool),
    ensures
        is_data_frame(space@.areas, ppn.0),
        space@.owns(ppn.0),
{
    let a = choose|a: int| is_trap_cx_area(space, ppn, a);
    assert(space@.areas[a].frames[TRAP_CONTEXT_VPN - space@.areas[a].start] == ppn.0);
}

/// No frame of `space` is a frame of the address space of the kernel or of a task.
#[verifier::opaque]
pub open spec fn detached(space: MemorySet, kernel_space: MemorySet, spaces: Seq<MemorySet>) -> bool {
    &&& forall|q: u64| #[trigger] space@.owns(q) ==> !kernel_space@.owns(q)
    &&& forall|u: int, q: u64|
        0 <= u < spaces.len() && #[trigger] spaces[u]@.owns(q) ==> !space@.owns(q)
}

/// Frames that are handed out keep their standing and their bytes, apart from those
/// that `mine` claims; and whoever owned frames still owns them unchanged.
pub proof fn lemma_spaces_kept(
    pool0: FramePool,
    pool1: FramePool,
    kernel_space: MemorySet,
    spaces: Seq<MemorySet>,
    ids: Seq<int>,
    owner: spec_fn(u64) -> int,
    mine: spec_fn(u64) -> bool,
)
    requires
        spaces_ok(pool0, kernel_space, spaces, ids, owner),
        pool1.wf(),
        untouched(pool0, pool1, mine),
        forall|q: u64| #[trigger] kernel_space@.owns(q) ==> !mine(q),
        forall|u: int, q: u64| 0 <= u < spaces.len() && #[trigger] spaces[u]@.owns(q) ==> !mine(q),
    ensures
        spaces_ok(pool1, kernel_space, spaces, ids, owner),
        forall|u: int, v: u64|
            0 <= u < spaces.len() ==> #[trigger] spaces[u].mapping(pool1, v) == spaces[u].mapping(
                pool0,
                v,
            ),
{
    reveal(untouched);
    reveal(spaces_ok);
    reveal(detached);
    lemma_memory_set_kept(kernel_space, pool0, pool1, mine);
    assert forall|u: int| 0 <= u < spaces.len() implies (#[trigger] spaces[u]).wf(pool1) by {
        assert(spaces[u].wf(pool0));
        assert forall|q: u64| spaces[u]@.owns(q) implies !mine(q) by {}
        lemma_memory_set_kept(spaces[u], pool0, pool1, mine);
    }
    assert forall|u: int, v: u64| 0 <= u < spaces.len() implies #[trigger] spaces[u].mapping(
        pool1,
        v,
    ) == spaces[u].mapping(pool0, v) by {
        assert(spaces[u].wf(pool0));
        assert forall|q: u64| spaces[u]@.owns(q) implies !mine(q) by {}
        lemma_memory_set_kept(spaces[u], pool0, pool1, mine);
    }
}

/// An address space that belongs to nobody yet can be taken in under a new number.
pub proof fn lemma_space_adopted(
    pool: FramePool,
    kernel_space: MemorySet,
    spaces: Seq<MemorySet>,
    ids: Seq<int>,
    owner: spec_fn(u64) -> int,
    added: MemorySet,
    id: int,
)
    requires
        spaces_ok(pool, kernel_space, spaces, ids, owner),
        added.wf(pool),
        id >= 0,
        forall|u: int| 0 <= u < ids.len() ==> #[trigger] ids[u] != id,
        detached(added, kernel_space, spaces),
    ensures
        spaces_ok(pool, kernel_space, spaces.push(added), ids.push(id), owner_with(owner, added, id)),
{
    reveal(untouched);
    reveal(spaces_ok);
    reveal(detached);
    let owner1 = owner_with(owner, added, id);
    let spaces1 = spaces.push(added);
    let ids1 = ids.push(id);
    assert forall|u: int| 0 <= u < spaces1.len() implies (#[trigger] spaces1[u]).wf(pool) by {
        if u < spaces.len() {
            assert(spaces[u].wf(pool));
        }
    }
    assert forall|q: u64| #[trigger] kernel_space@.owns(q) implies owner1(q) == -1 by {
        if added@.owns(q) {
            assert(!kernel_space@.owns(q));
        }
    }
    assert forall|u: int, q: u64|
        0 <= u < spaces1.len() && #[trigger] spaces1[u]@.owns(q) implies owner1(q) == ids1[u] by {
        if u < spaces.len() {
            assert(spaces[u]@.owns(q));
        }
    }
    assert forall|t: int, u: int|
        0 <= t < ids1.len() && 0 <= u < ids1.len() && t != u implies #[trigger] ids1[t]
        != #[trigger] ids1[u] by {
        if t < ids.len() && u < ids.len() {
            assert(ids[t] != ids[u]);
        } else if t < ids.len() {
            assert(ids[t] != id);
        } else {
            assert(ids[u] != id);
        }
    }
    assert forall|t: int| 0 <= t < ids1.len() implies #[trigger] ids1[t] >= 0 by {
        if t < ids.len() {
            assert(ids[t] >= 0);
        }
    }
}

/// New bytes in frames of the address space of one task, which stays consistent, leave
/// all address spaces consistent.
pub proof fn lemma_task_data_changed(
    pool0: FramePool,
    pool1: FramePool,
    kernel_space: MemorySet,
    spaces: Seq<MemorySet>,
    ids: Seq<int>,
    owner: spec_fn(u64) -> int,
    t: int,
)
    requires
        spaces_ok(pool0, kernel_space, spaces, ids, owner),
        0 <= t < spaces.len(),
        pool1.wf(),
        spaces[t].wf(pool1),
        untouched(pool0, pool1, |q: u64| spaces[t]@.owns(q)),
    ensures
        spaces_ok(pool1, kernel_space, spaces, ids, owner),
        forall|u: int, v: u64|
            0 <= u < spaces.len() && u != t ==> #[trigger] spaces[u].mapping(pool1, v)
                == spaces[u].mapping(pool0, v),
{
    reveal(untouched);
    reveal(spaces_ok);
    reveal(detached);
    let mine = |q: u64| spaces[t]@.owns(q);
    assert forall|q: u64| kernel_space@.owns(q) implies !mine(q) by {
        assert(ids[t] >= 0);
    }
    lemma_memory_set_kept(kernel_space, pool0, pool1, mine);
    assert forall|u: int| 0 <= u < spaces.len() implies (#[trigger] spaces[u]).wf(pool1) by {
        if u != t {
            assert(spaces[u].wf(pool0));
            assert forall|q: u64| spaces[u]@.owns(q) implies !mine(q) by {
                assert(ids[u] != ids[t]);
            }
            lemma_memory_set_kept(spaces[u], pool0, pool1, mine);
        }
    }
    assert forall|u: int, v: u64| 0 <= u < spaces.len() && u != t implies #[trigger] spaces[u].mapping(
        pool1,
        v,
    ) == spaces[u].mapping(pool0, v) by {
        assert(spaces[u].wf(pool0));
        assert forall|q: u64| spaces[u]@.owns(q) implies !mine(q) by {
            assert(ids[u] != ids[t]);
        }
        lemma_memory_set_kept(spaces[u], pool0, pool1, mine);
    }
}

impl Kernel {
    /// The address spaces of the tasks.
    pub open spec fn spaces(&self) -> Seq<MemorySet> {
        Seq::new(self.tasks@.len(), |t: int| self.tasks@[t].inner().memory_set)
    }

    /// The process numbers of the tasks.
    pub open spec fn ids(&self) -> Seq<int> {
        Seq::new(self.tasks@.len(), |t: int| self.tasks@[t].id() as int)
    }

    /// The `t`-th task has its process number in use and its kernel stack where its
    /// number says; unless it is a zombie, it has its trap context.
    pub open spec fn task_ok(&self, t: int) -> bool {
        let task = self.tasks@[t];
        &&& task.stack_pid() == task.id()
        &&& task.id() <= MAX_PID
        &&& self.pid_allocator@.in_use(task.id())
        &&& task.inner().task_status != TaskStatus::Zombie ==> trap_cx_ok(
            task.inner().memory_set,
            task.inner().trap_cx_ppn,
            self.pool,
        )
    }

    /// The kernel is consistent: the address spaces with the pool and with each other,
    /// the process numbers, and each task.
    pub open spec fn wf(&self) -> bool {
        &&& spaces_ok(self.pool, self.kernel_space, self.spaces(), self.ids(), self.owner@)
        &&& self.pid_allocator@.wf()
        &&& forall|t: int| 0 <= t < self.tasks@.len() ==> #[trigger] self.task_ok(t)
    }

    /// Whether the `t`-th task has the process number `pid`.
    pub open spec fn is_task(&self, t: int, pid: usize) -> bool {
        0 <= t < self.tasks@.len() && self.tasks@[t].id() == pid
    }

    /// Whether some task has the process number `pid`.
    pub open spec fn has_task(&self, pid: usize) -> bool {
        exists|t: int| self.is_task(t, pid)
    }

    /// The place in the table of the task with the process number `pid`.
    pub open spec fn index_of(&self, pid: usize) -> int {
        choose|t: int| self.is_task(t, pid)
    }

    /// In a consistent kernel, the place of a task is determined by its process number.
    pub proof fn lemma_index_of(&self, t: int, pid: usize)
        requires
            self.wf(),
            self.is_task(t, pid),
        ensures
            self.index_of(pid) == t,
            self.has_task(pid),
    {
        reveal(spaces_ok);
        let u = self.index_of(pid);
        assert(self.is_task(u, pid));
        if u != t {
            assert(self.ids()[u] != self.ids()[t]);
        }
    }

    /// A kernel with the frames from `start` up to, not including, `end` in its pool,
    /// its own address space as `layout` says, and no task.
    pub fn new(
        start: PhysPageNum,
        end: PhysPageNum,
        layout: &KernelLayout,
        env: KernelEnv,
        apps: Vec<App>,
    ) -> (r: Result<Self, KernelError>)
        requires
            start.0 <= end.0 <= 0x1000_0000_0000,
            end.0 - start.0 <= usize::MAX,
        ensures
            match r {
                Ok(kernel) => {
                    &&& kernel.wf()
                    &&& kernel.tasks@.len() == 0
                    &&& kernel.manager@.len() == 0
                    &&& kernel.processor.running() is None
                    &&& kernel.apps@ == apps@
                    &&& kernel.env == env
                    &&& kernel.kernel_space@.trampoline == layout.trampoline_ppn()
                    &&& built(layout.specs(), Seq::empty(), kernel.kernel_space@.areas, kernel.pool)
                },
                Err(e) => if crate::mm::memory_set::specs_ok(layout.specs(), 0) {
                    e == KernelError::OutOfFrames && end.0 - start.0 < 3 + 3
                        * crate::mm::memory_set::spec_pages(layout.specs())
                } else {
                    e == KernelError::BadLayout
                },
            },
    {
        proof {
            reveal(untouched);
            reveal(spaces_ok);
            reveal(detached);
        }
        let mut pool = FramePool::new(start, end);
        let kernel_space = match MemorySet::new_kernel(&mut pool, layout) {
            Ok(space) => space,
            Err(BuildError::BadLayout) => {
                return Err(KernelError::BadLayout);
            },
            Err(BuildError::OutOfFrames) => {
                return Err(KernelError::OutOfFrames);
            },
        };
        let kernel = Kernel {
            pool,
            kernel_space,
            pid_allocator: PidAllocator::new(),
            tasks: Vec::new(),
            manager: TaskManager::new(),
            processor: Processor::new(),
            apps,
            env,
            owner: Ghost(|q: u64| -1int),
        };
        proof {
            assert(kernel.spaces() =~= Seq::<MemorySet>::empty());
            assert(kernel.ids() =~= Seq::<int>::empty());
        }
        Ok(kernel)
    }

    /// The place in the table of the task with the process number `pid`, if there is
    /// one.
    pub fn find_task(&self, pid: usize) -> (r: Option<usize>)
        ensures
            match r {
                Some(t) => self.is_task(t as int, pid),
                None => !self.has_task(pid),
            },
    {
        let mut t: usize = 0;
        while t < self.tasks.len()
            invariant
                t <= self.tasks.len(),
                forall|u: int| 0 <= u < t ==> self.tasks@[u].id() != pid,
            decreases self.tasks.len() - t,
        {
            if self.tasks[t].getpid() == pid {
                return Some(t);
            }
            t = t + 1;
        }
        None
    }

    /// Builds the address space of the program in `elf_data`, apart from the tasks.
    pub fn load_space(&mut self, elf_data: &[u8]) -> (r: Result<(MemorySet, u64, u64), KernelError>)
        requires
            old(self).wf(),
        ensures
            final(self).wf(),
            final(self).same_but_pool(*old(self)),
            untouched(old(self).pool, final(self).pool, |q: u64| r is Ok && r->Ok_0.0@.owns(q)),
            match r {
                Ok((space, sp, entry)) => {
                    &&& space.wf(final(self).pool)
                    &&& detached(space, final(self).kernel_space, final(self).spaces())
                    &&& forall|q: u64| space@.owns(q) ==> !old(self).pool.is_live(q)
                    &&& untouched(old(self).pool, final(self).pool, |q: u64| space@.owns(q))
                    &&& space@.trampoline == final(self).kernel_space@.trampoline
                    &&& elf_image_of(elf_data@) matches Ok(image) && image_layout_of(image) matches Some(
                        (specs, user_sp),
                    ) && sp == user_sp && entry == image.entry_point && built(
                        specs,
                        elf_data@,
                        space@.areas,
                        final(self).pool,
                    ) && crate::mm::memory_set::specs_ok(specs, elf_data@.len() as int)
                        && final(self).pool.free_count() >= old(self).pool.free_count() - 3 - 3
                        * crate::mm::memory_set::spec_pages(specs)
                },
                Err(e) => load_failure(elf_data@, old(self).pool, e),
            },
    {
        proof {
            reveal(untouched);
            reveal(spaces_ok);
            reveal(detached);
        }
        let ghost pool0 = self.pool;
        let trampoline = self.kernel_space.trampoline_frame();
        let r = MemorySet::from_elf(&mut self.pool, elf_data, trampoline);
        proof {
            assert(self.spaces() == old(self).spaces());
            assert(self.ids() == old(self).ids());
            let mine = |q: u64| r is Ok && r->Ok_0.0@.owns(q);
            assert(untouched(pool0, self.pool, mine)) by {
                if r is Ok {
                    assert(untouched(pool0, self.pool, |q: u64| r->Ok_0.0@.owns(q)));
                } else {
                    assert(untouched(pool0, self.pool, |q: u64| false));
                }
            }
            assert forall|q: u64| #[trigger] self.kernel_space@.owns(q) implies !mine(q) by {
                lemma_owned_live(self.kernel_space, self.kernel_space@, pool0, q);
            }
            assert forall|u: int, q: u64|
                0 <= u < self.spaces().len() && #[trigger] self.spaces()[u]@.owns(q) implies !mine(
                q,
            ) by {
                lemma_owned_live(self.spaces()[u], self.spaces()[u]@, pool0, q);
            }
            lemma_spaces_kept(
                pool0,
                self.pool,
                self.kernel_space,
                self.spaces(),
                self.ids(),
                self.owner@,
                mine,
            );
            assert forall|t: int| 0 <= t < self.tasks@.len() implies #[trigger] self.task_ok(t) by {
                assert(old(self).task_ok(t));
                assert(self.spaces()[t].mapping(self.pool, TRAP_CONTEXT_VPN)
                    == self.spaces()[t].mapping(pool0, TRAP_CONTEXT_VPN));
            }
        }
        match r {
            Ok(loaded_space) => Ok(loaded_space),
            Err(LoadError::Elf(_)) => Err(KernelError::BadProgram),
            Err(LoadError::BadLayout) => Err(KernelError::BadLayout),
            Err(LoadError::OutOfFrames) => Err(KernelError::OutOfFrames),
        }
    }

    /// Copies the address space of the `t`-th task, apart from the tasks.
    pub fn fork_space(&mut self, t: usize) -> (r: Result<MemorySet, KernelError>)
        requires
            old(self).wf(),
            t < old(self).tasks@.len(),
        ensures
            final(self).wf(),
            final(self).same_but_pool(*old(self)),
            untouched(old(self).pool, final(self).pool, |q: u64| r is Ok && r->Ok_0@.owns(q)),
            crate::mm::memory_set::data_kept(
                old(self).spaces()[t as int]@.areas,
                old(self).pool,
                final(self).pool,
            ),
            match r {
                Ok(space) => {
                    &&& space.wf(final(self).pool)
                    &&& detached(space, final(self).kernel_space, final(self).spaces())
                    &&& forall|q: u64| space@.owns(q) ==> !old(self).pool.is_live(q)
                    &&& untouched(old(self).pool, final(self).pool, |q: u64| space@.owns(q))
                    &&& space@.trampoline == old(self).spaces()[t as int]@.trampoline
                    &&& copied(old(self).spaces()[t as int]@.areas, space@.areas, final(self).pool)
                    &&& final(self).pool.free_count() >= old(self).pool.free_count() - 3 - 3
                        * crate::mm::memory_set::total_pages(old(self).spaces()[t as int]@.areas)
                },
                Err(e) => e == KernelError::OutOfFrames && old(self).pool.free_count() < 3 + 3
                    * crate::mm::memory_set::total_pages(old(self).spaces()[t as int]@.areas),
            },
    {
        proof {
            reveal(untouched);
            reveal(spaces_ok);
            reveal(detached);
        }
        let ghost pool0 = self.pool;
        proof {
            assert(self.spaces()[t as int].wf(pool0));
        }
        let r = MemorySet::from_existed_user(
            &mut self.pool,
            &self.tasks[t].inner_ref().memory_set,
        );
        proof {
            assert(self.spaces() == old(self).spaces());
            assert(self.ids() == old(self).ids());
            let mine = |q: u64| r is Ok && r->Ok_0@.owns(q);
            assert(untouched(pool0, self.pool, mine)) by {
                if r is Ok {
                    assert(untouched(pool0, self.pool, |q: u64| r->Ok_0@.owns(q)));
                } else {
                    assert(untouched(pool0, self.pool, |q: u64| false));
                }
            }
            assert forall|q: u64| #[trigger] self.kernel_space@.owns(q) implies !mine(q) by {
                lemma_owned_live(self.kernel_space, self.kernel_space@, pool0, q);
            }
            assert forall|u: int, q: u64|
                0 <= u < self.spaces().len() && #[trigger] self.spaces()[u]@.owns(q) implies !mine(
                q,
            ) by {
                lemma_owned_live(self.spaces()[u], self.spaces()[u]@, pool0, q);
            }
            lemma_spaces_kept(
                pool0,
                self.pool,
                self.kernel_space,
                self.spaces(),
                self.ids(),
                self.owner@,
                mine,
            );
            assert forall|u: int| 0 <= u < self.tasks@.len() implies #[trigger] self.task_ok(u) by {
                assert(old(self).task_ok(u));
                assert(self.spaces()[u].mapping(self.pool, TRAP_CONTEXT_VPN)
                    == self.spaces()[u].mapping(pool0, TRAP_CONTEXT_VPN));
            }
        }
        match r {
            Ok(space) => Ok(space),
            Err(_) => Err(KernelError::OutOfFrames),
        }
    }

    /// Gives the frames of an address space that belongs to no task back to the pool.
    pub fn drop_space(&mut self, space: MemorySet)
        requires
            old(self).wf(),
            space.wf(old(self).pool),
            detached(space, old(self).kernel_space, old(self).spaces()),
        ensures
            final(self).wf(),
            final(self).same_but_pool(*old(self)),
            forall|q: u64| space@.owns(q) ==> !final(self).pool.is_live(q),
            untouched(old(self).pool, final(self).pool, |q: u64| space@.owns(q)),
    {
        proof {
            reveal(untouched);
            reveal(spaces_ok);
            reveal(detached);
        }
        let ghost pool0 = self.pool;
        space.destroy(&mut self.pool);
        proof {
            assert(self.spaces() == old(self).spaces());
            assert(self.ids() == old(self).ids());
            let mine = |q: u64| space@.owns(q);
            lemma_spaces_kept(
                pool0,
                self.pool,
                self.kernel_space,
                self.spaces(),
                self.ids(),
                self.owner@,
                mine,
            );
            assert forall|u: int| 0 <= u < self.tasks@.len() implies #[trigger] self.task_ok(u) by {
                assert(old(self).task_ok(u));
                assert(self.spaces()[u].mapping(self.pool, TRAP_CONTEXT_VPN)
                    == self.spaces()[u].mapping(pool0, TRAP_CONTEXT_VPN));
            }
        }
    }

    /// Maps the kernel stack of process `pid` in the address space of the kernel and
    /// returns the address just past it.
    pub fn alloc_kernel_stack(&mut self, pid: usize) -> (r: Result<u64, KernelError>)
        requires
            old(self).wf(),
            pid <= MAX_PID,
        ensures
            final(self).wf(),
            final(self).pid_allocator == old(self).pid_allocator,
            final(self).tasks == old(self).tasks,
            final(self).manager == old(self).manager,
            final(self).processor == old(self).processor,
            final(self).apps == old(self).apps,
            final(self).env == old(self).env,
            final(self).kernel_space@.trampoline == old(self).kernel_space@.trampoline,
            final(self).kernel_space@.root == old(self).kernel_space@.root,
            untouched(
                old(self).pool,
                final(self).pool,
                |q: u64| final(self).kernel_space@.owns(q),
            ),
            forall|q: u64|
                final(self).kernel_space@.owns(q) ==> old(self).kernel_space@.owns(q) || !old(self).pool.is_live(q),
            forall|q: u64| old(self).kernel_space@.owns(q) ==> final(self).kernel_space@.owns(q),
            match r {
                Ok(top) => top == kernel_stack_bounds(pid).1 && final(self).pool.free_count()
                    >= old(self).pool.free_count() - 3 * stack_len(pid) && stack_mapped(
                    old(self).kernel_space,
                    final(self).kernel_space,
                    pid,
                ),
                Err(e) => final(self).kernel_space@.areas == old(self).kernel_space@.areas && if !stack_free(old(self).kernel_space, pid) {
                    e == KernelError::StackInUse
                } else {
                    e == KernelError::OutOfFrames && old(self).pool.free_count() < 3 * stack_len(pid)
                },
            },
    {
        proof {
            reveal(untouched);
            reveal(spaces_ok);
            reveal(detached);
        }
        let ghost pool0 = self.pool;
        let ghost space0 = self.kernel_space;
        let (bottom, top) = kernel_stack_position(pid);
        let start_va = VirtAddr::from(bottom);
        let end_va = VirtAddr::from(top);
        let start_vpn = start_va.floor();
        let end_vpn = end_va.ceil();
        let permission = MapPermission { bits: MAP_R | MAP_W };
        proof {
            assert(start_vpn.0 == stack_pages(pid).0 && end_vpn.0 == stack_pages(pid).1);
        }
        if !(start_vpn.0 < end_vpn.0 && end_vpn.0 <= crate::mm::map_area::TRAMPOLINE_VPN
            && self.kernel_space.is_free_range(start_vpn, end_vpn)) {
            proof {
                crate::mm::map_area::lemma_same_frames(pool0, self.pool);
                assert(!stack_free(space0, pid));
            }
            return Err(KernelError::StackInUse);
        }
        proof {
            assert(stack_free(space0, pid));
            assert(framed_area(start_va, end_va, permission).len() == stack_len(pid));
        }
        proof {
            assert forall|a: int| 0 <= a < space0@.areas.len() implies (
            #[trigger] space0@.areas[a]).end <= start_vpn.0 || end_vpn.0
                <= space0@.areas[a].start by {
                assert(area_ok(space0@.areas[a], pool0, space0@.root, space0@.owned));
            }
        }
        let done = self.kernel_space.insert_framed_area(&mut self.pool, start_va, end_va, permission);
        proof {
            let after = self.kernel_space;
            lemma_pushed_owns(
                space0@,
                pool0,
                after@,
                self.pool,
                framed_area(start_va, end_va, permission),
                Seq::empty(),
                done is Ok,
            );
            lemma_kernel_space_changed(
                pool0,
                self.pool,
                space0,
                old(self).spaces(),
                old(self).ids(),
                old(self).owner@,
                after,
            );
        }
        self.owner = Ghost(owner_with(old(self).owner@, self.kernel_space, -1));
        proof {
            assert(self.spaces() == old(self).spaces());
            assert(self.ids() == old(self).ids());
            assert forall|u: int| 0 <= u < self.tasks@.len() implies #[trigger] self.task_ok(u) by {
                assert(old(self).task_ok(u));
                assert(old(self).spaces()[u].mapping(self.pool, TRAP_CONTEXT_VPN) == old(self).spaces()[u].mapping(pool0, TRAP_CONTEXT_VPN));
            }
        }
        proof {
            let area = framed_area(start_va, end_va, permission);
            assert(pushed(
                space0@,
                pool0,
                self.kernel_space@,
                self.pool,
                area,
                Seq::empty(),
                done is Ok,
            ));
            assert(0x02u8 | 0x04u8 == 0x06) by (bit_vector);
            if done is Ok {
                assert(crate::mm::map_area::same_area(self.kernel_space@.areas.last(), area));
                assert(stack_mapped(space0, self.kernel_space, pid));
            }
        }
        match done {
            Ok(()) => Ok(top),
            Err(_) => Err(KernelError::OutOfFrames),
        }
    }

    /// Unmaps the kernel stack of process `pid` and gives its frames back to the pool.
    pub fn free_kernel_stack(&mut self, pid: usize)
        requires
            old(self).wf(),
            pid <= MAX_PID,
        ensures
            final(self).wf(),
            final(self).pid_allocator == old(self).pid_allocator,
            final(self).tasks == old(self).tasks,
            final(self).manager == old(self).manager,
            final(self).processor == old(self).processor,
            final(self).apps == old(self).apps,
            final(self).env == old(self).env,
            final(self).kernel_space@.trampoline == old(self).kernel_space@.trampoline,
            final(self).kernel_space@.root == old(self).kernel_space@.root,
            untouched(old(self).pool, final(self).pool, |q: u64| old(self).kernel_space@.owns(q)),
            forall|q: u64| final(self).kernel_space@.owns(q) ==> old(self).kernel_space@.owns(q),
            stack_released(
                old(self).kernel_space,
                old(self).pool,
                final(self).kernel_space,
                final(self).pool,
                pid,
            ),
    {
        proof {
            reveal(untouched);
            reveal(spaces_ok);
            reveal(detached);
        }
        let ghost pool0 = self.pool;
        let ghost space0 = self.kernel_space;
        let (bottom, top) = kernel_stack_position(pid);
        let start_vpn = VirtAddr::from(bottom).floor();
        proof {
            assert(start_vpn.0 == stack_pages(pid).0);
        }
        self.kernel_space.remove_area_with_start_vpn(&mut self.pool, start_vpn);
        proof {
            let after = self.kernel_space;
            crate::mm::memory_set::lemma_removed_owns(
                space0@,
                pool0,
                after@,
                self.pool,
                start_vpn.0,
            );
            lemma_kernel_space_changed(
                pool0,
                self.pool,
                space0,
                old(self).spaces(),
                old(self).ids(),
                old(self).owner@,
                after,
            );
        }
        self.owner = Ghost(owner_with(old(self).owner@, self.kernel_space, -1));
        proof {
            assert(self.spaces() == old(self).spaces());
            assert(self.ids() == old(self).ids());
            assert forall|u: int| 0 <= u < self.tasks@.len() implies #[trigger] self.task_ok(u) by {
                assert(old(self).task_ok(u));
                assert(old(self).spaces()[u].mapping(self.pool, TRAP_CONTEXT_VPN) == old(self).spaces()[u].mapping(pool0, TRAP_CONTEXT_VPN));
            }
        }
    }

    /// Takes `task`, whose address space belongs to no task yet, into the table of
    /// tasks.
    pub fn adopt(&mut self, task: TaskControlBlock)
        requires
            old(self).wf(),
            task.inner().memory_set.wf(old(self).pool),
            detached(task.inner().memory_set, old(self).kernel_space, old(self).spaces()),
            !old(self).has_task(task.id()),
            old(self).pid_allocator@.in_use(task.id()),
            task.id() <= MAX_PID,
            task.stack_pid() == task.id(),
            task.inner().task_status != TaskStatus::Zombie ==> trap_cx_ok(
                task.inner().memory_set,
                task.inner().trap_cx_ppn,
                old(self).pool,
            ),
        ensures
            final(self).wf(),
            final(self).tasks@ == old(self).tasks@.push(task),
            final(self).pool == old(self).pool,
            final(self).kernel_space == old(self).kernel_space,
            final(self).pid_allocator == old(self).pid_allocator,
            final(self).manager == old(self).manager,
            final(self).processor == old(self).processor,
            final(self).apps == old(self).apps,
            final(self).env == old(self).env,
    {
        proof {
            reveal(untouched);
            reveal(spaces_ok);
            reveal(detached);
        }
        let ghost space = task.inner().memory_set;
        let ghost id = task.id() as int;
        proof {
            assert forall|u: int| 0 <= u < old(self).ids().len() implies #[trigger] old(self).ids()[u]
                != id by {
                assert(!old(self).is_task(u, task.id()));
            }
            lemma_space_adopted(
                self.pool,
                self.kernel_space,
                old(self).spaces(),
                old(self).ids(),
                old(self).owner@,
                space,
                id,
            );
        }
        self.owner = Ghost(owner_with(old(self).owner@, space, id));
        self.tasks.push(task);
        proof {
            assert(self.spaces() =~= old(self).spaces().push(space));
            assert(self.ids() =~= old(self).ids().push(id));
            assert forall|u: int| 0 <= u < self.tasks@.len() implies #[trigger] self.task_ok(u) by {
                if u < old(self).tasks@.len() {
                    assert(old(self).task_ok(u));
                }
            }
        }
    }

    /// The frame that holds the trap context of `space`: the frame of the trap context
    /// page, if that page lies in a framed area that is readable and writable.
    pub fn trap_cx_frame(space: &MemorySet, pool: &FramePool) -> (r: Option<PhysPageNum>)
        requires
            space.wf(*pool),
        ensures
            r matches Some(ppn) ==> trap_cx_ok(*space, ppn, *pool),
            r is None ==> forall|ppn: PhysPageNum| !trap_cx_ok(*space, ppn, *pool),
    {
        proof {
            reveal(untouched);
            reveal(spaces_ok);
            reveal(detached);
        }
        let found = space.data_frame(VirtPageNum(TRAP_CONTEXT_VPN), MapPermission { bits: MAP_R | MAP_W });
        proof {
            assert(0x02u8 | 0x04u8 == 0x06) by (bit_vector);
            if found is None {
                assert forall|ppn: PhysPageNum| !trap_cx_ok(*space, ppn, *pool) by {
                    if trap_cx_ok(*space, ppn, *pool) {
                        let a = choose|a: int| is_trap_cx_area(*space, ppn, a);
                        assert(space@.areas[a].has(TRAP_CONTEXT_VPN));
                    }
                }
            }
            if found is Some {
                let ppn = found->Some_0;
                let a = choose|a: int|
                    0 <= a < space@.areas.len() && (#[trigger] space@.areas[a]).has(TRAP_CONTEXT_VPN)
                        && space@.areas[a].map_type == crate::mm::map_area::MapType::Framed
                        && space@.areas[a].perm == 0x06 && TRAP_CONTEXT_VPN - space@.areas[a].start
                        < space@.areas[a].frames.len() && space@.areas[a].frames[TRAP_CONTEXT_VPN
                        - space@.areas[a].start] == ppn.0;
                assert(is_trap_cx_area(*space, ppn, a));
            }
        }
        found
    }

    /// Writes the trap context `cx` into the trap context frame of the `t`-th task,
    /// which must not be a zombie.
    pub fn write_trap_cx(&mut self, t: usize, cx: &TrapContext)
        requires
            old(self).wf(),
            t < old(self).tasks@.len(),
            old(self).tasks@[t as int].inner().task_status != TaskStatus::Zombie,
        ensures
            final(self).wf(),
            final(self).same_but_pool(*old(self)),
            final(self).pool.allocator == old(self).pool.allocator,
            forall|i: int|
                0 <= i < 37 ==> #[trigger] final(self).pool.memory.word(
                    old(self).tasks@[t as int].inner().trap_cx_ppn.0,
                    i,
                ) == cx.word(i),
            untouched(
                old(self).pool,
                final(self).pool,
                |q: u64| q == old(self).tasks@[t as int].inner().trap_cx_ppn.0,
            ),
    {
        proof {
            reveal(untouched);
            reveal(spaces_ok);
            reveal(detached);
        }
        let ghost pool0 = self.pool;
        let ghost space = self.spaces()[t as int];
        let ppn = self.tasks[t].inner_ref().trap_cx_ppn;
        proof {
            assert(old(self).task_ok(t as int));
            assert(space.wf(pool0));
            lemma_trap_cx_frame(space, ppn, pool0);
            lemma_owned_live(space, space@, pool0, ppn.0);
            lemma_live_has(pool0, ppn.0);
        }
        cx.store(&mut self.pool.memory, ppn);
        proof {
            let pool1 = self.pool;
            assert(self.spaces() == old(self).spaces());
            assert(self.ids() == old(self).ids());
            assert(pool1.wf());
            assert forall|q: u64|
                pool0.memory.has(q) && !is_data_frame(space@.areas, q) implies #[trigger] pool1.frame(
                q,
            ) == pool0.frame(q) by {
                assert(pool1.memory.frame(q) == pool0.memory.frame(q));
            }
            lemma_data_changed(space, pool0, pool1);
            assert(untouched(pool0, pool1, |q: u64| q == ppn.0)) by {
                assert forall|q: u64| q != ppn.0 && pool0.is_live(q) implies #[trigger] pool1.frame(
                    q,
                ) == pool0.frame(q) by {
                    lemma_live_has(pool0, q);
                    assert(pool1.memory.frame(q) == pool0.memory.frame(q));
                }
            }
            assert(untouched(pool0, pool1, |q: u64| space@.owns(q)));
            lemma_task_data_changed(
                pool0,
                pool1,
                self.kernel_space,
                self.spaces(),
                self.ids(),
                self.owner@,
                t as int,
            );
            assert forall|u: int| 0 <= u < self.tasks@.len() implies #[trigger] self.task_ok(u) by {
                assert(old(self).task_ok(u));
                if u != t {
                    assert(self.spaces()[u].mapping(pool1, TRAP_CONTEXT_VPN)
                        == self.spaces()[u].mapping(pool0, TRAP_CONTEXT_VPN));
                } else {
                    assert(space.mapping(pool1, TRAP_CONTEXT_VPN) == space.mapping(
                        pool0,
                        TRAP_CONTEXT_VPN,
                    ));
                }
            }
        }
    }

    /// Reads the trap context of the `t`-th task, which must not be a zombie.
    pub fn read_trap_cx(&self, t: usize) -> (cx: TrapContext)
        requires
            self.wf(),
            t < self.tasks@.len(),
            self.tasks@[t as int].inner().task_status != TaskStatus::Zombie,
        ensures
            forall|i: int|
                0 <= i < 37 ==> #[trigger] cx.word(i) == self.pool.memory.word(
                    self.tasks@[t as int].inner().trap_cx_ppn.0,
                    i,
                ),
    {
        proof {
            reveal(untouched);
            reveal(spaces_ok);
            reveal(detached);
        }
        let ppn = self.tasks[t].inner_ref().trap_cx_ppn;
        proof {
            let space = self.spaces()[t as int];
            assert(self.task_ok(t as int));
            assert(space.wf(self.pool));
            lemma_trap_cx_frame(space, ppn, self.pool);
            lemma_owned_live(space, space@, self.pool, ppn.0);
            lemma_live_has(self.pool, ppn.0);
        }
        TrapContext::load(&self.pool.memory, ppn)
    }

    /// Gives the `t`-th task the address space `space`, with its trap context frame and
    /// the top of its user stack, and returns the address space the task had.
    pub fn replace_space(
        &mut self,
        t: usize,
        space: MemorySet,
        trap_cx_ppn: PhysPageNum,
        base_size: u64,
    ) -> (former: MemorySet)
        requires
            old(self).wf(),
            t < old(self).tasks@.len(),
            space.wf(old(self).pool),
            detached(space, old(self).kernel_space, old(self).spaces()),
            trap_cx_ok(space, trap_cx_ppn, old(self).pool),
        ensures
            final(self).wf(),
            final(self).pool == old(self).pool,
            final(self).kernel_space == old(self).kernel_space,
            final(self).pid_allocator == old(self).pid_allocator,
            final(self).manager == old(self).manager,
            final(self).processor == old(self).processor,
            final(self).apps == old(self).apps,
            final(self).env == old(self).env,
            former == old(self).spaces()[t as int],
            former.wf(final(self).pool),
            detached(former, final(self).kernel_space, final(self).spaces()),
            final(self).tasks@.len() == old(self).tasks@.len(),
            forall|u: int|
                0 <= u < old(self).tasks@.len() && u != t ==> #[trigger] final(self).tasks@[u] == old(self).tasks@[u],
            final(self).tasks@[t as int].id() == old(self).tasks@[t as int].id(),
            final(self).tasks@[t as int].inner() == (TaskControlBlockInner {
                memory_set: space,
                trap_cx_ppn,
                base_size,
                ..old(self).tasks@[t as int].inner()
            }),
    {
        proof {
            reveal(untouched);
            reveal(spaces_ok);
            reveal(detached);
        }
        let ghost spaces0 = self.spaces();
        let ghost ids0 = self.ids();
        let ghost id = ids0[t as int];
        let mut space = space;
        let ghost new_space = space;
        proof {
            assert(old(self).task_ok(t as int));
        }
        let inner = self.tasks[t].inner_exclusive_access();
        core::mem::swap(&mut inner.memory_set, &mut space);
        inner.trap_cx_ppn = trap_cx_ppn;
        inner.base_size = base_size;
        self.owner = Ghost(owner_with(old(self).owner@, new_space, id));
        proof {
            assert(self.spaces() =~= spaces0.update(t as int, new_space));
            assert(self.ids() =~= ids0);
            let owner1 = self.owner@;
            assert forall|u: int| 0 <= u < self.spaces().len() implies (#[trigger] self.spaces()[u]).wf(
                self.pool,
            ) by {
                if u != t {
                    assert(spaces0[u].wf(self.pool));
                }
            }
            assert forall|q: u64| #[trigger] self.kernel_space@.owns(q) implies owner1(q) == -1 by {}
            assert forall|u: int, q: u64|
                0 <= u < self.spaces().len() && #[trigger] self.spaces()[u]@.owns(q) implies owner1(
                q,
            ) == self.ids()[u] by {
                if u != t {
                    assert(spaces0[u]@.owns(q));
                }
            }
            assert forall|q: u64| #[trigger] space@.owns(q) implies !self.kernel_space@.owns(q) by {
                assert(spaces0[t as int]@.owns(q));
                assert(ids0[t as int] >= 0);
            }
            assert forall|u: int, q: u64|
                0 <= u < self.spaces().len() && #[trigger] self.spaces()[u]@.owns(q) implies !space@.owns(
                q,
            ) by {
                if space@.owns(q) {
                    assert(spaces0[t as int]@.owns(q));
                    if u != t {
                        assert(spaces0[u]@.owns(q));
                        assert(ids0[u] != ids0[t as int]);
                    }
                }
            }
            assert(spaces0[t as int].wf(self.pool));
            assert forall|u: int| 0 <= u < self.tasks@.len() implies #[trigger] self.task_ok(u) by {
                assert(old(self).task_ok(u));
            }
        }
        space
    }

    /// Changes the standing of the `t`-th task, which is no zombie, to `status`.
    pub fn set_status(&mut self, t: usize, status: TaskStatus)
        requires
            old(self).wf(),
            t < old(self).tasks@.len(),
            old(self).tasks@[t as int].inner().task_status != TaskStatus::Zombie,
        ensures
            final(self).wf(),
            final(self).same_but_task(*old(self), t as int),
            final(self).tasks@[t as int].inner() == (TaskControlBlockInner {
                task_status: status,
                ..old(self).tasks@[t as int].inner()
            }),
    {
        let inner = self.tasks[t].inner_exclusive_access();
        inner.task_status = status;
        proof {
            lemma_task_fields_changed(*old(self), *self, t as int);
        }
    }

    /// Sets the parent of the `t`-th task.
    pub fn set_parent(&mut self, t: usize, parent: Option<usize>)
        requires
            old(self).wf(),
            t < old(self).tasks@.len(),
        ensures
            final(self).wf(),
            final(self).same_but_task(*old(self), t as int),
            final(self).tasks@[t as int].inner() == (TaskControlBlockInner {
                parent,
                ..old(self).tasks@[t as int].inner()
            }),
    {
        let inner = self.tasks[t].inner_exclusive_access();
        inner.parent = parent;
        proof {
            lemma_task_fields_changed(*old(self), *self, t as int);
        }
    }

    /// Adds `child` to the children of the `t`-th task.
    pub fn push_child(&mut self, t: usize, child: usize)
        requires
            old(self).wf(),
            t < old(self).tasks@.len(),
        ensures
            final(self).wf(),
            final(self).same_but_task(*old(self), t as int),
            final(self).tasks@[t as int].inner().children@ == old(self).tasks@[t as int].inner().children@.push(child),
            final(self).tasks@[t as int].inner().task_status == old(self).tasks@[t as int].inner().task_status,
            final(self).tasks@[t as int].inner().parent == old(self).tasks@[t as int].inner().parent,
            final(self).tasks@[t as int].inner().exit_code == old(self).tasks@[t as int].inner().exit_code,
            final(self).tasks@[t as int].inner().base_size == old(self).tasks@[t as int].inner().base_size,
            final(self).tasks@[t as int].inner().task_cx == old(self).tasks@[t as int].inner().task_cx,
    {
        let inner = self.tasks[t].inner_exclusive_access();
        inner.children.push(child);
        proof {
            lemma_task_fields_changed(*old(self), *self, t as int);
        }
    }

    /// Takes the children of the `t`-th task away from it.
    pub fn take_children(&mut self, t: usize) -> (r: Vec<usize>)
        requires
            old(self).wf(),
            t < old(self).tasks@.len(),
        ensures
            final(self).wf(),
            final(self).same_but_task(*old(self), t as int),
            r@ == old(self).tasks@[t as int].inner().children@,
            final(self).tasks@[t as int].inner().children@.len() == 0,
            final(self).tasks@[t as int].inner().task_status == old(self).tasks@[t as int].inner().task_status,
            final(self).tasks@[t as int].inner().parent == old(self).tasks@[t as int].inner().parent,
            final(self).tasks@[t as int].inner().exit_code == old(self).tasks@[t as int].inner().exit_code,
            final(self).tasks@[t as int].inner().base_size == old(self).tasks@[t as int].inner().base_size,
            final(self).tasks@[t as int].inner().task_cx == old(self).tasks@[t as int].inner().task_cx,
    {
        let inner = self.tasks[t].inner_exclusive_access();
        let mut children: Vec<usize> = Vec::new();
        core::mem::swap(&mut inner.children, &mut children);
        proof {
            lemma_task_fields_changed(*old(self), *self, t as int);
        }
        children
    }

    /// Removes the child at place `i` from the children of the `t`-th task.
    pub fn remove_child(&mut self, t: usize, i: usize) -> (r: usize)
        requires
            old(self).wf(),
            t < old(self).tasks@.len(),
            i < old(self).tasks@[t as int].inner().children@.len(),
        ensures
            final(self).wf(),
            final(self).same_but_task(*old(self), t as int),
            r == old(self).tasks@[t as int].inner().children@[i as int],
            final(self).tasks@[t as int].inner().children@ == old(self).tasks@[t as int].inner().children@.remove(i as int),
            final(self).tasks@[t as int].inner().task_status == old(self).tasks@[t as int].inner().task_status,
            final(self).tasks@[t as int].inner().parent == old(self).tasks@[t as int].inner().parent,
            final(self).tasks@[t as int].inner().exit_code == old(self).tasks@[t as int].inner().exit_code,
            final(self).tasks@[t as int].inner().base_size == old(self).tasks@[t as int].inner().base_size,
            final(self).tasks@[t as int].inner().task_cx == old(self).tasks@[t as int].inner().task_cx,
    {
        let inner = self.tasks[t].inner_exclusive_access();
        let child = inner.children.remove(i);
        proof {
            lemma_task_fields_changed(*old(self), *self, t as int);
        }
        child
    }

    /// Keeps `cx` as the task context of the `t`-th task.
    pub fn set_task_cx(&mut self, t: usize, cx: crate::task::context::TaskContext)
        requires
            old(self).wf(),
            t < old(self).tasks@.len(),
        ensures
            final(self).wf(),
            final(self).same_but_task(*old(self), t as int),
            final(self).tasks@[t as int].inner() == (TaskControlBlockInner {
                task_cx: cx,
                ..old(self).tasks@[t as int].inner()
            }),
    {
        let inner = self.tasks[t].inner_exclusive_access();
        inner.task_cx = cx;
        proof {
            lemma_task_fields_changed(*old(self), *self, t as int);
        }
    }

    /// The table of tasks is as in `other`, but for the `t`-th task, which has the
    /// process number it has in `other`.
    pub open spec fn same_tasks_but(&self, other: Kernel, t: int) -> bool {
        &&& self.tasks@.len() == other.tasks@.len()
        &&& forall|u: int|
            0 <= u < other.tasks@.len() && u != t ==> #[trigger] self.tasks@[u] == other.tasks@[u]
        &&& self.tasks@[t].id() == other.tasks@[t].id()
    }

    /// Everything but the `t`-th task is as in `other`; the `t`-th task has the process
    /// number, the address space and the trap context frame it has in `other`.
    pub open spec fn same_but_task(&self, other: Kernel, t: int) -> bool {
        &&& self.pool == other.pool
        &&& self.kernel_space == other.kernel_space
        &&& self.pid_allocator == other.pid_allocator
        &&& self.manager == other.manager
        &&& self.processor == other.processor
        &&& self.apps == other.apps
        &&& self.env == other.env
        &&& self.owner == other.owner
        &&& self.tasks@.len() == other.tasks@.len()
        &&& forall|u: int|
            0 <= u < other.tasks@.len() && u != t ==> #[trigger] self.tasks@[u] == other.tasks@[u]
        &&& self.tasks@[t].id() == other.tasks@[t].id()
        &&& self.tasks@[t].stack_pid() == other.tasks@[t].stack_pid()
        &&& self.tasks@[t].inner().memory_set == other.tasks@[t].inner().memory_set
        &&& self.tasks@[t].inner().trap_cx_ppn == other.tasks@[t].inner().trap_cx_ppn
    }

    /// Makes the `t`-th task a zombie with the exit code `exit_code`.
    pub fn set_exit(&mut self, t: usize, exit_code: i32)
        requires
            old(self).wf(),
            t < old(self).tasks@.len(),
        ensures
            final(self).wf(),
            final(self).same_but_task(*old(self), t as int),
            final(self).tasks@[t as int].inner() == (TaskControlBlockInner {
                task_status: TaskStatus::Zombie,
                exit_code,
                ..old(self).tasks@[t as int].inner()
            }),
    {
        let inner = self.tasks[t].inner_exclusive_access();
        inner.task_status = TaskStatus::Zombie;
        inner.exit_code = exit_code;
        proof {
            lemma_task_fields_changed(*old(self), *self, t as int);
        }
    }

    /// Removes the areas of the `t`-th task, a zombie, and gives their frames back to
    /// the pool. The page table of the task stays.
    pub fn release_task_areas(&mut self, t: usize)
        requires
            old(self).wf(),
            t < old(self).tasks@.len(),
            old(self).tasks@[t as int].inner().task_status == TaskStatus::Zombie,
        ensures
            final(self).wf(),
            final(self).kernel_space == old(self).kernel_space,
            final(self).pid_allocator == old(self).pid_allocator,
            final(self).manager == old(self).manager,
            final(self).processor == old(self).processor,
            final(self).apps == old(self).apps,
            final(self).env == old(self).env,
            final(self).tasks@.len() == old(self).tasks@.len(),
            forall|u: int|
                0 <= u < old(self).tasks@.len() && u != t ==> #[trigger] final(self).tasks@[u] == old(self).tasks@[u],
            final(self).tasks@[t as int].id() == old(self).tasks@[t as int].id(),
            final(self).tasks@[t as int].inner().task_status == TaskStatus::Zombie,
            final(self).tasks@[t as int].inner().exit_code == old(self).tasks@[t as int].inner().exit_code,
            final(self).tasks@[t as int].inner().parent == old(self).tasks@[t as int].inner().parent,
            final(self).tasks@[t as int].inner().children == old(self).tasks@[t as int].inner().children,
            final(self).tasks@[t as int].inner().trap_cx_ppn == old(self).tasks@[t as int].inner().trap_cx_ppn,
            final(self).tasks@[t as int].inner().task_cx == old(self).tasks@[t as int].inner().task_cx,
            final(self).tasks@[t as int].inner().base_size == old(self).tasks@[t as int].inner().base_size,
            final(self).tasks@[t as int].inner().memory_set@.areas.len() == 0,
            final(self).tasks@[t as int].inner().memory_set@.root == old(self).tasks@[t as int].inner().memory_set@.root,
            forall|q: u64|
                is_data_frame(old(self).tasks@[t as int].inner().memory_set@.areas, q)
                    ==> !final(self).pool.is_live(q),
            untouched(
                old(self).pool,
                final(self).pool,
                |q: u64| old(self).tasks@[t as int].inner().memory_set@.owns(q),
            ),
    {
        proof {
            reveal(untouched);
            reveal(spaces_ok);
            reveal(detached);
        }
        let ghost pool0 = self.pool;
        let ghost spaces0 = self.spaces();
        let ghost ids0 = self.ids();
        let ghost space0 = spaces0[t as int];
        proof {
            assert(space0.wf(pool0));
        }
        let inner = self.tasks[t].inner_exclusive_access();
        inner.memory_set.release_areas(&mut self.pool);
        let ghost space1 = self.tasks@[t as int].inner().memory_set;
        proof {
            assert(self.spaces() =~= spaces0.update(t as int, space1));
            assert(self.ids() =~= ids0);
            assert forall|q: u64| space1@.owns(q) implies space0@.owns(q) by {
                assert(space1@.owned.contains(q));
            }
            assert(untouched(pool0, self.pool, |q: u64| space0@.owns(q) || space1@.owns(q)));
            lemma_task_space_changed(
                pool0,
                self.pool,
                self.kernel_space,
                spaces0,
                ids0,
                old(self).owner@,
                t as int,
                space1,
            );
        }
        self.owner = Ghost(owner_with(old(self).owner@, space1, ids0[t as int]));
        proof {
            assert forall|u: int| 0 <= u < self.tasks@.len() implies #[trigger] self.task_ok(u) by {
                assert(old(self).task_ok(u));
            }
        }
    }

    /// Takes the `t`-th task out of the table of tasks and gives everything it has back:
    /// the frames of its address space, its kernel stack and its process number.
    /// Returns its process number and its exit code.
    pub fn reap(&mut self, t: usize) -> (r: (usize, i32))
        requires
            old(self).wf(),
            t < old(self).tasks@.len(),
        ensures
            final(self).wf(),
            final(self).manager == old(self).manager,
            final(self).processor == old(self).processor,
            final(self).apps == old(self).apps,
            final(self).env == old(self).env,
            final(self).tasks@ == old(self).tasks@.remove(t as int),
            r.0 == old(self).tasks@[t as int].id(),
            r.1 == old(self).tasks@[t as int].inner().exit_code,
            !final(self).pid_allocator@.in_use(r.0),
            final(self).pid_allocator@ == (crate::task::pid::PidsView {
                recycled: old(self).pid_allocator@.recycled.push(r.0),
                ..old(self).pid_allocator@
            }),
            !final(self).has_task(r.0),
            exists|mid: FramePool|
                #![trigger stack_released(old(self).kernel_space, mid, final(self).kernel_space, final(self).pool, r.0)]
                {
                    &&& untouched(
                        old(self).pool,
                        mid,
                        |q: u64| old(self).tasks@[t as int].inner().memory_set@.owns(q),
                    )
                    &&& stack_released(
                        old(self).kernel_space,
                        mid,
                        final(self).kernel_space,
                        final(self).pool,
                        r.0,
                    )
                },
            frames_kept(
                old(self).pool,
                final(self).pool,
                old(self).tasks@[t as int].inner().memory_set,
                old(self).kernel_space,
            ),
            forall|q: u64|
                old(self).tasks@[t as int].inner().memory_set@.owns(q) ==> !final(self).pool.is_live(
                    q,
                ),
            forall|u: int, q: u64|
                0 <= u < old(self).tasks@.len() && u != t && #[trigger] old(self).tasks@[u].inner().memory_set@.owns(q) ==> final(self).pool.is_live(q)
                    && final(self).pool.frame(q) == old(self).pool.frame(q),
    {
        proof {
            reveal(untouched);
            reveal(spaces_ok);
            reveal(detached);
        }
        let ghost kernel0 = *self;
        let ghost spaces0 = self.spaces();
        let ghost ids0 = self.ids();
        proof {
            assert(kernel0.task_ok(t as int));
        }
        let task = self.tasks.remove(t);
        let (handle, kernel_stack, inner) = task.dismantle();
        let TaskControlBlockInner {
            trap_cx_ppn,
            base_size,
            task_status,
            task_cx,
            memory_set,
            parent,
            children,
            exit_code,
        } = inner;
        let pid: usize = handle.0;
        proof {
            assert(self.spaces() =~= spaces0.remove(t as int));
            assert(self.ids() =~= ids0.remove(t as int));
            assert(memory_set == spaces0[t as int]);
            lemma_space_taken_out(
                self.pool,
                self.kernel_space,
                spaces0,
                ids0,
                self.owner@,
                t as int,
            );
            assert forall|u: int| 0 <= u < self.tasks@.len() implies #[trigger] self.task_ok(u)
                && self.tasks@[u].id() != pid by {
                let w = if u < t {
                    u
                } else {
                    u + 1
                };
                assert(self.tasks@[u] == kernel0.tasks@[w]);
                assert(kernel0.task_ok(w));
                assert(ids0[w] != ids0[t as int]);
            }
            assert(!self.has_task(pid)) by {
                if self.has_task(pid) {
                    let u = choose|u: int| self.is_task(u, pid);
                    assert(self.task_ok(u));
                    assert(self.tasks@[u].id() != pid);
                }
            }
        }
        let ghost kernel1 = *self;
        self.drop_space(memory_set);
        let ghost kernel2 = *self;
        proof {
            assert(!self.has_task(pid)) by {
                if self.has_task(pid) {
                    let u = choose|u: int| self.is_task(u, pid);
                    assert(kernel1.is_task(u, pid));
                }
            }
        }
        crate::task::task::release_pid(self, handle);
        proof {
            assert(stack_released(kernel0.kernel_space, kernel2.pool, self.kernel_space, self.pool, pid));
            crate::mm::memory_set::lemma_untouched_trans(
                kernel0.pool,
                kernel2.pool,
                self.pool,
                |q: u64| memory_set@.owns(q),
                |q: u64| kernel2.kernel_space@.owns(q),
                |q: u64| memory_set@.owns(q) || kernel0.kernel_space@.owns(q),
            );
            assert(!self.has_task(pid)) by {
                if self.has_task(pid) {
                    let u = choose|u: int| self.is_task(u, pid);
                    assert(kernel1.is_task(u, pid));
                }
            }
            assert forall|q: u64| memory_set@.owns(q) implies !self.pool.is_live(q) by {
                assert(!kernel2.pool.is_live(q));
                assert(!kernel1.kernel_space@.owns(q));
            }
            assert forall|u: int, q: u64|
                0 <= u < kernel0.tasks@.len() && u != t && #[trigger] kernel0.tasks@[u].inner().memory_set@.owns(
                    q,
                ) implies self.pool.is_live(q) && self.pool.frame(q) == kernel0.pool.frame(q) by {
                assert(spaces0[u]@.owns(q));
                assert(spaces0[u].wf(kernel0.pool));
                lemma_owned_live(spaces0[u], spaces0[u]@, kernel0.pool, q);
                assert(ids0[u] != ids0[t as int]);
                assert(!memory_set@.owns(q));
                assert(ids0[u] >= 0);
                assert(!kernel0.kernel_space@.owns(q));
            }
        }
        (pid, exit_code)
    }

    /// Writes `bytes` to the address `ptr` of the address space of the `t`-th task, if
    /// the bytes fit into one page that the task may write. Returns whether they did.
    pub fn write_user(&mut self, t: usize, ptr: u64, bytes: &Vec<u8>) -> (r: bool)
        requires
            old(self).wf(),
            t < old(self).tasks@.len(),
        ensures
            final(self).wf(),
            final(self).same_but_pool(*old(self)),
            final(self).pool.allocator == old(self).pool.allocator,
            r == user_writable(old(self).spaces()[t as int], ptr, bytes@.len() as int),
            !r ==> final(self).pool == old(self).pool,
            r ==> {
                let ppn = user_target(old(self).spaces()[t as int], ptr);
                &&& final(self).pool.frame(ppn) == crate::mm::phys_memory::with_bytes(
                    old(self).pool.frame(ppn),
                    (ptr % 4096) as int,
                    bytes@,
                )
                &&& untouched(old(self).pool, final(self).pool, |q: u64| q == ppn)
            },
    {
        proof {
            reveal(untouched);
            reveal(spaces_ok);
        }
        let ghost pool0 = self.pool;
        let ghost space = self.spaces()[t as int];
        let offset: usize = (ptr % 4096) as usize;
        if bytes.len() > 4096 - offset {
            return false;
        }
        let vpn = VirtAddr::from(ptr).floor();
        let found = self.tasks[t].inner_ref().memory_set.user_frame(vpn, 0x14);
        let ppn = match found {
            Some(ppn) => ppn,
            None => {
                return false;
            },
        };
        proof {
            lemma_user_target(space, ptr, ppn.0, pool0);
            assert(space.wf(pool0));
            assert(space@.owns(ppn.0));
            lemma_owned_live(space, space@, pool0, ppn.0);
            lemma_live_has(pool0, ppn.0);
            assert(bytes@.subrange(0, bytes@.len() as int) =~= bytes@);
        }
        self.pool.memory.write_bytes(ppn, offset, bytes.as_slice(), 0, bytes.len());
        proof {
            let pool1 = self.pool;
            assert(self.spaces() == old(self).spaces());
            assert(self.ids() == old(self).ids());
            assert forall|q: u64|
                pool0.memory.has(q) && !is_data_frame(space@.areas, q) implies #[trigger] pool1.frame(
                q,
            ) == pool0.frame(q) by {
                assert(pool1.memory.frame(q) == pool0.memory.frame(q));
            }
            lemma_data_changed(space, pool0, pool1);
            assert(untouched(pool0, pool1, |q: u64| q == ppn.0)) by {
                assert forall|q: u64| q != ppn.0 && pool0.is_live(q) implies #[trigger] pool1.frame(
                    q,
                ) == pool0.frame(q) by {
                    lemma_live_has(pool0, q);
                    assert(pool1.memory.frame(q) == pool0.memory.frame(q));
                }
            }
            assert(untouched(pool0, pool1, |q: u64| space@.owns(q)));
            lemma_task_data_changed(
                pool0,
                pool1,
                self.kernel_space,
                self.spaces(),
                self.ids(),
                self.owner@,
                t as int,
            );
            assert forall|u: int| 0 <= u < self.tasks@.len() implies #[trigger] self.task_ok(u) by {
                assert(old(self).task_ok(u));
            }
        }
        true
    }

    /// Everything but the pool, and the bytes in it, is as in `other`.
    pub open spec fn same_but_pool(&self, other: Kernel) -> bool {
        &&& self.kernel_space == other.kernel_space
        &&& self.pid_allocator == other.pid_allocator
        &&& self.tasks == other.tasks
        &&& self.manager == other.manager
        &&& self.processor == other.processor
        &&& self.apps == other.apps
        &&& self.env == other.env
        &&& self.owner == other.owner
    }
}

/// The pages of the kernel stack of process `pid`: the first, and the one past the
/// last.
pub open spec fn stack_pages(pid: usize) -> (u64, u64) {
    let (bottom, top) = kernel_stack_bounds(pid);
    (
        (bottom & 0x7f_ffff_ffff) / 4096,
        crate::address::pages_up((top & 0x7f_ffff_ffff) as int) as u64,
    )
}

/// Number of pages of the kernel stack of process `pid`.
pub open spec fn stack_len(pid: usize) -> int {
    stack_pages(pid).1 - stack_pages(pid).0
}

/// Whether the place of the kernel stack of process `pid` is free in the address space
/// `space`: its pages lie below the trampoline, and no area holds one of them.
pub open spec fn stack_free(space: MemorySet, pid: usize) -> bool {
    let (start, end) = stack_pages(pid);
    &&& start < end
    &&& end <= crate::mm::map_area::TRAMPOLINE_VPN
    &&& forall|a: int|
        0 <= a < space@.areas.len() ==> (#[trigger] space@.areas[a]).end <= start || end
            <= space@.areas[a].start
}

/// No frame has changed its standing or its bytes but frames of the address spaces
/// `one` and `other`.
pub open spec fn frames_kept(pool0: FramePool, pool1: FramePool, one: MemorySet, other: MemorySet) -> bool {
    untouched(pool0, pool1, |q: u64| one@.owns(q) || other@.owns(q))
}

/// Three steps that touch the frames of `one`, the frames of `other`, and then the
/// frame `ppn` of `one`, touch no frame but frames of the two.
pub proof fn lemma_frames_kept(
    pool0: FramePool,
    pool1: FramePool,
    pool2: FramePool,
    pool3: FramePool,
    one: MemorySet,
    other: MemorySet,
    ppn: u64,
)
    requires
        untouched(pool0, pool1, |q: u64| one@.owns(q)),
        untouched(pool1, pool2, |q: u64| other@.owns(q)),
        untouched(pool2, pool3, |q: u64| q == ppn),
        one@.owns(ppn),
    ensures
        frames_kept(pool0, pool3, one, other),
{
    let both = |q: u64| one@.owns(q) || other@.owns(q);
    crate::mm::memory_set::lemma_untouched_trans(
        pool0,
        pool1,
        pool2,
        |q: u64| one@.owns(q),
        |q: u64| other@.owns(q),
        both,
    );
    crate::mm::memory_set::lemma_untouched_trans(pool0, pool2, pool3, both, |q: u64| q == ppn, both);
}

/// The address space `space1` is `space0` with the kernel stack of process `pid` behind
/// its areas: a framed area of the pages of the stack, readable and writable, all
/// mapped.
pub open spec fn stack_mapped(space0: MemorySet, space1: MemorySet, pid: usize) -> bool {
    let last = space1@.areas.last();
    &&& space1@.areas.len() == space0@.areas.len() + 1
    &&& space1@.areas.subrange(0, space0@.areas.len() as int) == space0@.areas
    &&& last.start == stack_pages(pid).0
    &&& last.end == stack_pages(pid).1
    &&& last.map_type == crate::mm::map_area::MapType::Framed
    &&& last.perm == 0x06
    &&& last.complete()
}

/// What giving up the kernel stack of process `pid` does: the first area of the
/// address space of the kernel that starts at the first page of the stack is removed,
/// its pages are unmapped and its frames are back in the pool; the other areas stay.
/// Nothing changes if no area starts there.
pub open spec fn stack_released(
    space0: MemorySet,
    pool0: FramePool,
    space1: MemorySet,
    pool1: FramePool,
    pid: usize,
) -> bool {
    match crate::mm::memory_set::first_area_at(space0@.areas, stack_pages(pid).0) {
        Some(idx) => crate::mm::memory_set::removed(space0@, pool0, space1@, pool1, idx),
        None => space1@.areas == space0@.areas && pool1.same_as(pool0),
    }
}

/// Why no process number with its kernel stack could be had: every number is in use or
/// the next one is too large; or the place of its kernel stack is taken; or else the
/// pool has fewer than three frames for each page of the stack.
pub open spec fn claim_failure(before: Kernel, e: KernelError) -> bool {
    match before.pid_allocator@.next() {
        None => e == KernelError::OutOfPids,
        Some(pid) => if pid > MAX_PID {
            e == KernelError::OutOfPids
        } else if !stack_free(before.kernel_space, pid) {
            e == KernelError::StackInUse
        } else {
            e == KernelError::OutOfFrames && before.pool.free_count() < 3 * stack_len(pid)
        },
    }
}

/// Why a task could not be made whose address space takes at most `space_frames`
/// frames: the pool has fewer; or no process number with its kernel stack could be
/// had, where the frames for the stack come on top.
pub open spec fn task_blocked(before: Kernel, space_frames: int, e: KernelError) -> bool {
    ||| e == KernelError::OutOfFrames && before.pool.free_count() < space_frames
    ||| match before.pid_allocator@.next() {
        None => e == KernelError::OutOfPids,
        Some(pid) => if pid > MAX_PID {
            e == KernelError::OutOfPids
        } else if !stack_free(before.kernel_space, pid) {
            e == KernelError::StackInUse
        } else {
            e == KernelError::OutOfFrames && before.pool.free_count() < space_frames + 3
                * stack_len(pid)
        },
    }
}

/// Why starting a program failed: the bytes hold no program; or its areas do not fit;
/// or, only when the areas fit, the kernel lacks frames, a process number or the place
/// for the kernel stack, as `task_blocked` says.
pub open spec fn start_failure(before: Kernel, data: Seq<u8>, e: KernelError) -> bool {
    match elf_image_of(data) {
        Err(_) => e == KernelError::BadProgram,
        Ok(image) => match image_layout_of(image) {
            None => e == KernelError::BadLayout,
            Some((specs, _)) => if crate::mm::memory_set::specs_ok(specs, data.len() as int) {
                task_blocked(before, 3 + 3 * crate::mm::memory_set::spec_pages(specs), e)
            } else {
                e == KernelError::BadLayout
            },
        },
    }
}

/// Why loading a program failed: the bytes hold no program; or its areas do not fit;
/// or, only when the areas fit, the pool ran out of frames.
pub open spec fn load_failure(data: Seq<u8>, pool: FramePool, e: KernelError) -> bool {
    match elf_image_of(data) {
        Err(_) => e == KernelError::BadProgram,
        Ok(image) => match image_layout_of(image) {
            None => e == KernelError::BadLayout,
            Some((specs, _)) => if crate::mm::memory_set::specs_ok(specs, data.len() as int) {
                e == KernelError::OutOfFrames && pool.free_count() < 3 + 3
                    * crate::mm::memory_set::spec_pages(specs)
            } else {
                e == KernelError::BadLayout
            },
        },
    }
}

/// A kernel in which one task has changed, but not its number, its address space or its
/// trap context frame, and has not come back from being a zombie, is as consistent as
/// it was.
pub proof fn lemma_task_fields_changed(before: Kernel, after: Kernel, t: int)
    requires
        before.wf(),
        0 <= t < before.tasks@.len(),
        after.same_but_task(before, t),
        before.tasks@[t].inner().task_status == TaskStatus::Zombie ==> after.tasks@[t].inner().task_status
            == TaskStatus::Zombie,
    ensures
        after.wf(),
        after.spaces() == before.spaces(),
        after.ids() == before.ids(),
{
    assert(after.spaces() =~= before.spaces());
    assert(after.ids() =~= before.ids());
    assert forall|u: int| 0 <= u < after.tasks@.len() implies #[trigger] after.task_ok(u) by {
        assert(before.task_ok(u));
    }
}

/// An address space that is taken out of the table belongs to no task any more, and
/// the others are as consistent as they were.
pub proof fn lemma_space_taken_out(
    pool: FramePool,
    kernel_space: MemorySet,
    spaces: Seq<MemorySet>,
    ids: Seq<int>,
    owner: spec_fn(u64) -> int,
    t: int,
)
    requires
        spaces_ok(pool, kernel_space, spaces, ids, owner),
        0 <= t < spaces.len(),
    ensures
        spaces_ok(pool, kernel_space, spaces.remove(t), ids.remove(t), owner),
        spaces[t].wf(pool),
        detached(spaces[t], kernel_space, spaces.remove(t)),
{
    reveal(spaces_ok);
    reveal(detached);
    let spaces1 = spaces.remove(t);
    let ids1 = ids.remove(t);
    assert forall|u: int| 0 <= u < spaces1.len() implies (#[trigger] spaces1[u]).wf(pool) by {
        let w = if u < t {
            u
        } else {
            u + 1
        };
        assert(spaces1[u] == spaces[w]);
        assert(spaces[w].wf(pool));
    }
    assert forall|u: int, q: u64|
        0 <= u < spaces1.len() && #[trigger] spaces1[u]@.owns(q) implies owner(q) == ids1[u]
        && !spaces[t]@.owns(q) by {
        let w = if u < t {
            u
        } else {
            u + 1
        };
        assert(spaces1[u] == spaces[w]);
        assert(spaces[w]@.owns(q));
        assert(ids[w] != ids[t]);
    }
    assert forall|a: int, b: int|
        0 <= a < ids1.len() && 0 <= b < ids1.len() && a != b implies #[trigger] ids1[a]
        != #[trigger] ids1[b] by {
        let a0 = if a < t {
            a
        } else {
            a + 1
        };
        let b0 = if b < t {
            b
        } else {
            b + 1
        };
        assert(ids[a0] != ids[b0]);
    }
    assert forall|a: int| 0 <= a < ids1.len() implies #[trigger] ids1[a] >= 0 by {
        let a0 = if a < t {
            a
        } else {
            a + 1
        };
        assert(ids[a0] >= 0);
    }
    assert forall|q: u64| #[trigger] spaces[t]@.owns(q) implies !kernel_space@.owns(q) by {
        assert(ids[t] >= 0);
    }
}

/// Whether `len` bytes at the address `ptr` lie within one page that the address
/// space maps in a framed area which user programs may write.
pub open spec fn user_writable(space: MemorySet, ptr: u64, len: int) -> bool {
    &&& ptr % 4096 + len <= 4096
    &&& exists|q: u64|
        #[trigger] crate::mm::memory_set::has_page(
            space@.areas,
            (ptr & 0x7f_ffff_ffff) / 4096,
            0x14,
            q,
        )
}

/// The frame of the page of the address `ptr` that user programs may write.
pub open spec fn user_target(space: MemorySet, ptr: u64) -> u64 {
    choose|q: u64|
        #[trigger] crate::mm::memory_set::has_page(
            space@.areas,
            (ptr & 0x7f_ffff_ffff) / 4096,
            0x14,
            q,
        )
}

/// The frame of a page that user programs may write is determined by the page, and is
/// a frame of a page of the address space.
pub proof fn lemma_user_target(space: MemorySet, ptr: u64, ppn: u64, pool: FramePool)
    requires
        space.wf(pool),
        crate::mm::memory_set::has_page(space@.areas, (ptr & 0x7f_ffff_ffff) / 4096, 0x14, ppn),
    ensures
        user_target(space, ptr) == ppn,
        is_data_frame(space@.areas, ppn),
{
    let vpn = (ptr & 0x7f_ffff_ffff) / 4096;
    let other = user_target(space, ptr);
    let a = choose|a: int|
        #[trigger] crate::mm::memory_set::is_page_of(space@.areas, a, vpn, 0x14, ppn);
    let b = choose|b: int|
        #[trigger] crate::mm::memory_set::is_page_of(space@.areas, b, vpn, 0x14, other);
    assert(space@.areas[a].frames[vpn - space@.areas[a].start] == ppn);
    if a < b {
        assert(space@.areas[a].end <= space@.areas[b].start || space@.areas[b].end
            <= space@.areas[a].start);
    } else if b < a {
        assert(space@.areas[b].end <= space@.areas[a].start || space@.areas[a].end
            <= space@.areas[b].start);
    }
}

/// The frame of a page that user programs may write is a frame of the address space.
pub proof fn lemma_user_target_owned(space: MemorySet, ptr: u64, pool: FramePool)
    requires
        space.wf(pool),
        user_writable(space, ptr, 4) || user_writable(space, ptr, 1),
    ensures
        space@.owns(user_target(space, ptr)),
{
    let q = choose|q: u64|
        #[trigger] crate::mm::memory_set::has_page(
            space@.areas,
            (ptr & 0x7f_ffff_ffff) / 4096,
            0x14,
            q,
        );
    lemma_user_target(space, ptr, q, pool);
}

} // verus!
