//! Cells for the state that the kernel shares between its parts.

pub mod up;
