//! Process numbers and the place of the kernel stack of each process.

use vstd::prelude::*;
use crate::config::{KERNEL_STACK_SIZE, PAGE_SIZE, TRAMPOLINE};

verus! {

/// A process number that is in use.
#[derive(Debug)]
pub struct PidHandle(pub usize);

/// The allocator of process numbers: a counter, with a last-in-first-out list of the
/// numbers that were handed back.
pub struct PidAllocator {
    current: usize,
    recycled: Vec<usize>,
}

/// The plain state of the allocator of process numbers.
pub struct PidsView {
    /// The lowest number that was never handed out.
    pub current: usize,
    /// The numbers that were handed back, oldest first.
    pub recycled: Seq<usize>,
}

impl PidsView {
    /// The numbers handed back were handed out before, and are listed once.
    pub open spec fn wf(self) -> bool {
        &&& forall|i: int| 0 <= i < self.recycled.len() ==> #[trigger] self.recycled[i] < self.current
        &&& forall|i: int, j: int|
            0 <= i < j < self.recycled.len() ==> #[trigger] self.recycled[i]
                != #[trigger] self.recycled[j]
    }

    /// Whether number `pid` is in use.
    pub open spec fn in_use(self, pid: usize) -> bool {
        pid < self.current && !self.recycled.contains(pid)
    }

    /// The number that is handed out next: the one handed back last, or else the
    /// lowest that was never handed out. None when every number is in use.
    pub open spec fn next(self) -> Option<usize> {
        if self.recycled.len() > 0 {
            Some(self.recycled.last())
        } else if self.current < usize::MAX {
            Some(self.current)
        } else {
            None
        }
    }
}

impl View for PidAllocator {
    type V = PidsView;

    closed spec fn view(&self) -> PidsView {
        PidsView { current: self.current, recycled: self.recycled@ }
    }
}

impl PidAllocator {
    /// An allocator that has handed out no number yet.
    pub fn new() -> (r: Self)
        ensures
            r@.current == 0,
            r@.recycled.len() == 0,
            r@.wf(),
    {
        PidAllocator { current: 0, recycled: Vec::new() }
    }

    /// Hands out a number: the number handed back last, else the lowest number never
    /// handed out; nothing when the numbers have run out.
    pub fn allocate(&mut self) -> (r: Option<PidHandle>)
        requires
            old(self)@.wf(),
        ensures
            final(self)@.wf(),
            match r {
                Some(handle) => {
                    &&& !old(self)@.in_use(handle.0)
                    &&& final(self)@.in_use(handle.0)
                    &&& forall|p: usize| p != handle.0 ==> final(self)@.in_use(p) == old(self)@.in_use(p)
                    &&& if old(self)@.recycled.len() > 0 {
                        handle.0 == old(self)@.recycled.last() && final(self)@.recycled == old(self)@.recycled.drop_last() && final(self)@.current == old(self)@.current
                    } else {
                        handle.0 == old(self)@.current && final(self)@.current == old(self)@.current
                            + 1 && final(self)@.recycled == old(self)@.recycled
                    }
                },
                None => old(self)@.recycled.len() == 0 && old(self)@.current == usize::MAX
                    && final(self)@ == old(self)@,
            },
    {
        let ghost before = self@;
        if let Some(pid) = self.recycled.pop() {
            proof {
                let rest = before.recycled.drop_last();
                assert(before.recycled[before.recycled.len() - 1] == pid);
                assert(!rest.contains(pid)) by {
                    if rest.contains(pid) {
                        let i = choose|i: int| 0 <= i < rest.len() && rest[i] == pid;
                        assert(before.recycled[i] == rest[i]);
                    }
                }
                assert forall|p: usize| p != pid implies rest.contains(p)
                    == before.recycled.contains(p) by {
                    if before.recycled.contains(p) {
                        let i = choose|i: int|
                            0 <= i < before.recycled.len() && before.recycled[i] == p;
                        assert(rest[i] == p);
                    }
                    if rest.contains(p) {
                        let i = choose|i: int| 0 <= i < rest.len() && rest[i] == p;
                        assert(before.recycled[i] == p);
                    }
                }
                assert forall|i: int| 0 <= i < rest.len() implies #[trigger] rest[i]
                    < before.current by {
                    assert(rest[i] == before.recycled[i]);
                }
                assert forall|i: int, j: int| 0 <= i < j < rest.len() implies #[trigger] rest[i]
                    != #[trigger] rest[j] by {
                    assert(rest[i] == before.recycled[i]);
                    assert(rest[j] == before.recycled[j]);
                }
            }
            Some(PidHandle(pid))
        } else if self.current == usize::MAX {
            None
        } else {
            let pid = self.current;
            self.current = self.current + 1;
            Some(PidHandle(pid))
        }
    }

    /// Takes back the number `pid`, which must be in use.
    pub fn dealloc(&mut self, pid: usize)
        requires
            old(self)@.wf(),
            old(self)@.in_use(pid),
        ensures
            final(self)@.wf(),
            final(self)@.current == old(self)@.current,
            final(self)@.recycled == old(self)@.recycled.push(pid),
            !final(self)@.in_use(pid),
            forall|p: usize| p != pid ==> final(self)@.in_use(p) == old(self)@.in_use(p),
    {
        let ghost before = self@;
        self.recycled.push(pid);
        proof {
            let more = before.recycled.push(pid);
            assert(more[before.recycled.len() as int] == pid);
            assert forall|p: usize| p != pid implies more.contains(p) == before.recycled.contains(
                p,
            ) by {
                if before.recycled.contains(p) {
                    let i = choose|i: int|
                        0 <= i < before.recycled.len() && before.recycled[i] == p;
                    assert(more[i] == p);
                }
                if more.contains(p) {
                    let i = choose|i: int| 0 <= i < more.len() && more[i] == p;
                    assert(before.recycled[i] == p);
                }
            }
            assert forall|i: int, j: int| 0 <= i < j < more.len() implies #[trigger] more[i]
                != #[trigger] more[j] by {
                if j == before.recycled.len() {
                    assert(before.recycled[i] == more[i]);
                    assert(before.recycled.contains(more[i]));
                }
            }
        }
    }

    /// Whether number `pid` is in use.
    pub fn in_use(&self, pid: usize) -> (r: bool)
        ensures
            r == self@.in_use(pid),
    {
        if pid >= self.current {
            return false;
        }
        let mut i: usize = 0;
        while i < self.recycled.len()
            invariant
                i <= self.recycled.len(),
                forall|k: int| 0 <= k < i ==> self.recycled@[k] != pid,
            decreases self.recycled.len() - i,
        {
            if self.recycled[i] == pid {
                return false;
            }
            i = i + 1;
        }
        true
    }
}

/// Hands out a process number from `allocator`.
pub fn pid_alloc(allocator: &mut PidAllocator) -> (r: Option<PidHandle>)
    requires
        old(allocator)@.wf(),
    ensures
        final(allocator)@.wf(),
        r matches Some(handle) ==> !old(allocator)@.in_use(handle.0) && final(allocator)@.in_use(
            handle.0,
        ) && forall|p: usize|
            p != handle.0 ==> final(allocator)@.in_use(p) == old(allocator)@.in_use(p),
        r is None ==> final(allocator)@ == old(allocator)@,
        r is None <==> old(allocator)@.recycled.len() == 0 && old(allocator)@.current
            == usize::MAX,
{
    allocator.allocate()
}

/// Largest process number whose kernel stack lies above the low half of the address
/// space.
pub const MAX_PID: usize = 0x1000_0000;

/// The lowest address and the address just past the kernel stack of process `pid`:
/// the stacks lie below the trampoline, each followed by a guard page.
pub open spec fn kernel_stack_bounds(pid: usize) -> (u64, u64) {
    (
        (0xffff_ffff_ffff_f000 - pid * 0x3000 - 0x2000) as u64,
        (0xffff_ffff_ffff_f000 - pid * 0x3000) as u64,
    )
}

/// The lowest address and the address just past the kernel stack of process `pid`.
pub fn kernel_stack_position(pid: usize) -> (r: (u64, u64))
    requires
        pid <= MAX_PID,
    ensures
        r == kernel_stack_bounds(pid),
        r.0 + 0x2000 == r.1,
{
    let stride: u64 = KERNEL_STACK_SIZE + PAGE_SIZE;
    assert(stride == 0x3000);
    let top: u64 = TRAMPOLINE - (pid as u64) * stride;
    let bottom: u64 = top - KERNEL_STACK_SIZE;
    (bottom, top)
}

/// The kernel stack of a process.
#[derive(Debug)]
pub struct KernelStack {
    pid: usize,
}

impl KernelStack {
    /// The process that the stack belongs to.
    pub closed spec fn pid(&self) -> usize {
        self.pid
    }

    /// The kernel stack of the process with the number of `pid_handle`.
    pub fn new(pid_handle: &PidHandle) -> (r: Self)
        ensures
            r.pid() == pid_handle.0,
    {
        KernelStack { pid: pid_handle.0 }
    }

    /// The address just past the stack.
    pub fn get_top(&self) -> (r: u64)
        requires
            self.pid() <= MAX_PID,
        ensures
            r == kernel_stack_bounds(self.pid()).1,
    {
        let (_, top) = kernel_stack_position(self.pid);
        top
    }
}

} // verus!
