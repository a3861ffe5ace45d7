//! Memory management: physical frames, page tables and address spaces.

pub mod frame_allocator;
pub mod phys_memory;
pub mod page_table;
pub mod map_area;
pub mod memory_set;
pub mod user_memory;

use vstd::prelude::*;
use crate::address::PhysPageNum;
use crate::mm::memory_set::{built, BuildError, KernelLayout, MemorySet};
use crate::mm::phys_memory::FramePool;

verus! {

/// Sets memory management up: the pool of the frames from `start` up to, not
/// including, `end`, and the address space of the kernel. Returns both, and the value
/// for the address-translation register that makes the address space of the kernel the
/// current one.
pub fn init(start: PhysPageNum, end: PhysPageNum, layout: &KernelLayout) -> (r: Result<
    (FramePool, MemorySet, u64),
    BuildError,
>)
    requires
        start.0 <= end.0 <= 0x1000_0000_0000,
        end.0 - start.0 <= usize::MAX,
    ensures
        r matches Ok((pool, space, satp)) ==> {
            &&& space.wf(pool)
            &&& satp == (8u64 << 60) | space@.root
            &&& space@.trampoline == layout.trampoline_ppn()
            &&& built(layout.specs(), Seq::empty(), space@.areas, pool)
        },
        r matches Err(e) ==> if crate::mm::memory_set::specs_ok(layout.specs(), 0) {
            e == BuildError::OutOfFrames && end.0 - start.0 < 3 + 3
                * crate::mm::memory_set::spec_pages(layout.specs())
        } else {
            e == BuildError::BadLayout
        },
{
    let mut pool = FramePool::new(start, end);
    match MemorySet::new_kernel(&mut pool, layout) {
        Ok(space) => {
            let satp = space.token();
            Ok((pool, space, satp))
        },
        Err(e) => Err(e),
    }
}

} // verus!
