//! Core of a small multitasking kernel for RISC-V SV39, with the on-disk
//! layout of the simple file system it mounts.
//!
//! Everything the kernel decides is computed here on plain values: the
//! physical frame pool, page tables, address spaces, tasks, system calls and
//! the file-system layout. Hardware access stays with the caller.

pub mod config;
pub mod address;
pub mod codec;
pub mod elf;
pub mod fs;
pub mod kernel;
pub mod loader;
pub mod mm;
pub mod sync;
pub mod syscall;
pub mod task;
pub mod timer;
pub mod trap;
pub mod user;

