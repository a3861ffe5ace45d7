//! On-disk layout of the file system: block devices, the block cache,
//! allocation bitmaps, the superblock and inodes.

pub mod block_dev;
pub mod block_cache;
pub mod bitmap;
pub mod layout;
