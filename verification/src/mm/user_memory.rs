//! Reaching the memory of a user program from the kernel: by the value of the
//! address-translation register that names its page table.

use vstd::prelude::*;
use crate::address::{PhysPageNum, VirtAddr, VirtPageNum};
use crate::mm::page_table::{leaf, pte_ppn, PageTable};
use crate::mm::phys_memory::PhysMemory;

verus! {

/// A run of bytes inside one frame: the bytes from `start` up to, not including, `end`.
#[derive(Clone, Copy, Debug, PartialEq, Eq, Structural)]
pub struct FrameSlice {
    pub ppn: PhysPageNum,
    pub start: usize,
    pub end: usize,
}

/// The root table that the register value `token` names.
pub open spec fn token_root(token: u64) -> u64 {
    token & 0xfff_ffff_ffff
}

/// The frame that holds the byte at address `addr`, by the third-level entry of its
/// page; nothing if a table on the way is missing or the frame lies outside memory.
pub open spec fn user_frame(mem: PhysMemory, root: u64, addr: u64) -> Option<u64> {
    match leaf(mem, root, (addr & 0x7f_ffff_ffff) / 4096) {
        Some(e) => if mem.has(pte_ppn(e)) {
            Some(pte_ppn(e))
        } else {
            None
        },
        None => None,
    }
}

/// The byte at address `addr`, if its frame can be found.
pub open spec fn user_byte(mem: PhysMemory, root: u64, addr: u64) -> Option<u8> {
    match user_frame(mem, root, addr) {
        Some(ppn) => Some(mem.frame(ppn)[(addr % 4096) as int]),
        None => None,
    }
}

/// Number of pages that the `len` bytes from address `ptr` on touch.
pub open spec fn buffer_pages(ptr: u64, len: int) -> int {
    if len <= 0 {
        0
    } else {
        (ptr + len - 1) / 4096 - ptr / 4096 + 1
    }
}

/// First address of the `k`-th piece of the buffer.
pub open spec fn piece_start(ptr: u64, k: int) -> int {
    if k == 0 {
        ptr as int
    } else {
        (ptr / 4096 + k) * 4096
    }
}

/// Address just past the `k`-th piece of the buffer.
pub open spec fn piece_end(ptr: u64, len: int, k: int) -> int {
    if (ptr / 4096 + k + 1) * 4096 < ptr + len {
        (ptr / 4096 + k + 1) * 4096
    } else {
        ptr + len
    }
}

/// Whether `slices` are the pieces of the buffer of `len` bytes at address `ptr`, one
/// for each page it touches, in order.
pub open spec fn is_buffer(
    mem: PhysMemory,
    root: u64,
    ptr: u64,
    len: int,
    slices: Seq<FrameSlice>,
) -> bool {
    &&& slices.len() == buffer_pages(ptr, len)
    &&& forall|k: int|
        0 <= k < slices.len() ==> {
            &&& user_frame(mem, root, piece_start(ptr, k) as u64) == Some(
                (#[trigger] slices[k]).ppn.0,
            )
            &&& slices[k].start == piece_start(ptr, k) % 4096
            &&& slices[k].end == slices[k].start + (piece_end(ptr, len, k) - piece_start(ptr, k))
            &&& slices[k].start < slices[k].end <= 4096
        }
}

/// Whether every page of the buffer of `len` bytes at address `ptr` can be found.
pub open spec fn buffer_mapped(mem: PhysMemory, root: u64, ptr: u64, len: int) -> bool {
    &&& ptr + len <= u64::MAX
    &&& forall|k: int|
        0 <= k < buffer_pages(ptr, len) ==> (#[trigger] user_frame(
            mem,
            root,
            piece_start(ptr, k) as u64,
        )) is Some
}

/// The frame that holds the byte at address `addr` in the address space that `token`
/// names.
pub fn translated_frame(memory: &PhysMemory, token: u64, addr: u64) -> (r: Option<PhysPageNum>)
    requires
        memory.wf(),
    ensures
        r == match user_frame(*memory, token_root(token), addr) {
            Some(ppn) => Some(PhysPageNum(ppn)),
            None => None,
        },
{
    let page_table = PageTable::from_token(token);
    let vpn: VirtPageNum = VirtAddr::from(addr).floor();
    match page_table.translate(memory, vpn) {
        Some(pte) => {
            let ppn = pte.ppn();
            if memory.contains(ppn) {
                Some(ppn)
            } else {
                None
            }
        },
        None => None,
    }
}

/// The pieces of the buffer of `len` bytes at address `ptr` in the address space that
/// `token` names: one run of bytes for each page the buffer touches, in order. Nothing
/// if the buffer runs past the end of the address space or a page of it cannot be found.
pub fn translated_byte_buffer(memory: &PhysMemory, token: u64, ptr: u64, len: usize) -> (r: Option<
    Vec<FrameSlice>,
>)
    requires
        memory.wf(),
    ensures
        r is Some <==> buffer_mapped(*memory, token_root(token), ptr, len as int),
        r matches Some(slices) ==> is_buffer(
            *memory,
            token_root(token),
            ptr,
            len as int,
            slices@,
        ),
{
    let ghost root = token_root(token);
    if len as u64 > u64::MAX - ptr {
        return None;
    }
    let end: u64 = ptr + len as u64;
    let mut start: u64 = ptr;
    let mut v: Vec<FrameSlice> = Vec::new();
    let ghost mut k: int = 0;
    while start < end
        invariant
            memory.wf(),
            root == token_root(token),
            ptr <= start <= end,
            end == ptr + len,
            0 <= k <= buffer_pages(ptr, len as int),
            start == if k < buffer_pages(ptr, len as int) {
                piece_start(ptr, k)
            } else {
                end as int
            },
            v@.len() == k,
            forall|j: int|
                0 <= j < k ==> {
                    &&& user_frame(*memory, root, piece_start(ptr, j) as u64) == Some(
                        (#[trigger] v@[j]).ppn.0,
                    )
                    &&& v@[j].start == piece_start(ptr, j) % 4096
                    &&& v@[j].end == v@[j].start + (piece_end(ptr, len as int, j) - piece_start(
                        ptr,
                        j,
                    ))
                    &&& v@[j].start < v@[j].end <= 4096
                },
        decreases end - start,
    {
        let ppn = match translated_frame(memory, token, start) {
            Some(ppn) => ppn,
            None => {
                assert(k < buffer_pages(ptr, len as int));
                assert(user_frame(*memory, root, piece_start(ptr, k) as u64) is None);
                return None;
            },
        };
        let offset: u64 = start % 4096;
        let room: u64 = 4096 - offset;
        let n: u64 = if end - start < room {
            end - start
        } else {
            room
        };
        v.push(FrameSlice { ppn, start: offset as usize, end: (offset + n) as usize });
        start = start + n;
        proof {
            k = k + 1;
        }
    }
    assert(k == buffer_pages(ptr, len as int));
    assert forall|j: int| 0 <= j < buffer_pages(ptr, len as int) implies (#[trigger] user_frame(
        *memory,
        root,
        piece_start(ptr, j) as u64,
    )) is Some by {
        assert(user_frame(*memory, root, piece_start(ptr, j) as u64) == Some(v@[j].ppn.0));
    }
    Some(v)
}

/// Whether the bytes from address `ptr` on are `bytes`, none of them zero, and then a
/// zero byte.
pub open spec fn is_str_at(mem: PhysMemory, root: u64, ptr: u64, bytes: Seq<u8>) -> bool {
    &&& ptr + bytes.len() <= u64::MAX
    &&& forall|i: int|
        0 <= i < bytes.len() ==> #[trigger] user_byte(mem, root, (ptr + i) as u64) == Some(
            bytes[i],
        ) && bytes[i] != 0
    &&& user_byte(mem, root, (ptr + bytes.len()) as u64) == Some(0u8)
}

/// The bytes of the string at address `ptr` in the address space that `token` names,
/// up to its zero byte. Nothing if a page cannot be found, or the address space ends,
/// before the zero byte.
pub fn translated_str(memory: &PhysMemory, token: u64, ptr: u64) -> (r: Option<Vec<u8>>)
    requires
        memory.wf(),
    ensures
        r matches Some(bytes) ==> is_str_at(*memory, token_root(token), ptr, bytes@),
        r is None ==> forall|bytes: Seq<u8>|
            !is_str_at(*memory, token_root(token), ptr, bytes),
{
    let ghost root = token_root(token);
    let mut string: Vec<u8> = Vec::new();
    let mut va: u64 = ptr;
    loop
        invariant
            memory.wf(),
            root == token_root(token),
            va == ptr + string@.len(),
            forall|i: int|
                0 <= i < string@.len() ==> #[trigger] user_byte(*memory, root, (ptr + i) as u64)
                    == Some(string@[i]) && string@[i] != 0,
        decreases u64::MAX - va,
    {
        let ch: u8 = match translated_frame(memory, token, va) {
            Some(ppn) => memory.read_byte(ppn, (va % 4096) as usize),
            None => {
                proof {
                    lemma_no_str(*memory, root, ptr, string@);
                }
                return None;
            },
        };
        if ch == 0 {
            return Some(string);
        }
        if va == u64::MAX {
            proof {
                lemma_no_str_at_end(*memory, root, ptr, string@.push(ch));
            }
            return None;
        }
        string.push(ch);
        va = va + 1;
    }
}

/// Where the bytes from `ptr` on can be read and are not zero, a string at `ptr` starts
/// with them; so there is no string at `ptr` if the next byte cannot be found.
proof fn lemma_no_str(mem: PhysMemory, root: u64, ptr: u64, read: Seq<u8>)
    requires
        ptr + read.len() <= u64::MAX,
        forall|i: int|
            0 <= i < read.len() ==> #[trigger] user_byte(mem, root, (ptr + i) as u64) == Some(
                read[i],
            ) && read[i] != 0,
        user_byte(mem, root, (ptr + read.len()) as u64) is None,
    ensures
        forall|bytes: Seq<u8>| !is_str_at(mem, root, ptr, bytes),
{
    assert forall|bytes: Seq<u8>| !is_str_at(mem, root, ptr, bytes) by {
        if is_str_at(mem, root, ptr, bytes) {
            let n = read.len() as int;
            if bytes.len() < n {
                assert(user_byte(mem, root, (ptr + bytes.len()) as u64) == Some(
                    read[bytes.len() as int],
                ));
            } else if bytes.len() > n {
                assert(user_byte(mem, root, (ptr + n) as u64) == Some(bytes[n]));
            }
        }
    }
}

/// There is no string at `ptr` if the bytes up to the last address are not zero.
proof fn lemma_no_str_at_end(mem: PhysMemory, root: u64, ptr: u64, read: Seq<u8>)
    requires
        ptr + read.len() == u64::MAX + 1,
        forall|i: int|
            0 <= i < read.len() ==> #[trigger] user_byte(mem, root, (ptr + i) as u64) == Some(
                read[i],
            ) && read[i] != 0,
    ensures
        forall|bytes: Seq<u8>| !is_str_at(mem, root, ptr, bytes),
{
    assert forall|bytes: Seq<u8>| !is_str_at(mem, root, ptr, bytes) by {
        if is_str_at(mem, root, ptr, bytes) {
            assert(bytes.len() < read.len());
            assert(user_byte(mem, root, (ptr + bytes.len()) as u64) == Some(
                read[bytes.len() as int],
            ));
        }
    }
}

/// The place of the object of `size` bytes at address `ptr` in the address space that
/// `token` names: its frame and its offset in the frame. Nothing if the page cannot be
/// found or the object does not lie within one page.
pub fn translated_ref_mut(memory: &PhysMemory, token: u64, ptr: u64, size: usize) -> (r: Option<
    (PhysPageNum, usize),
>)
    requires
        memory.wf(),
    ensures
        r == if ptr % 4096 + size <= 4096 {
            match user_frame(*memory, token_root(token), ptr) {
                Some(ppn) => Some((PhysPageNum(ppn), (ptr % 4096) as usize)),
                None => None,
            }
        } else {
            None
        },
{
    let offset: usize = (ptr % 4096) as usize;
    if size > 4096 - offset {
        return None;
    }
    match translated_frame(memory, token, ptr) {
        Some(ppn) => Some((ppn, offset)),
        None => None,
    }
}

} // verus!
