//! A minimal ext2-inspired filesystem core: a logical-block abstraction over a
//! flat virtual device, the superblock that records the device's layout and
//! free-resource counters, a free-space bitmap allocator, the inode table, and
//! the direct/indirect pointer resolver that maps a file's logical block index
//! to a physical block number.
use vstd::prelude::*;

pub mod bitmap;
pub mod blocks;
pub mod codec;
pub mod filesystem;
pub mod inode;
pub mod inode_table;
pub mod resolver;
pub mod superblock;

verus! {

/// Every failure the filesystem core can report.
#[derive(Clone, Copy, Debug, PartialEq, Eq, Structural)]
pub enum FsError {
    /// A block was read past the end of the backing store.
    ShortRead,
    /// The device cannot hold a superblock, a non-empty bitmap, a non-empty
    /// inode table and at least one data block.
    DeviceTooSmall,
    /// No free block or inode is left.
    CapacityExhausted,
    /// A logical block index exceeds the maximum representable file size.
    OutOfRange,
    /// A resource that is already free was freed again.
    DoubleFree,
    /// A resource that is already in use was marked used again.
    AlreadyUsed,
    /// A stored record holds bytes that no record value encodes to.
    CorruptRecord,
    /// A cached counter contradicts the authoritative structure it mirrors.
    Inconsistent,
}

} // verus!
