//! The superblock: the single record at block 0 that stores the absolute
//! block ranges of every region of the filesystem — bitmap, inode table,
//! data — together with the global free-resource counters. Every other
//! component is carved out of the regions computed here.
use vstd::prelude::*;

use crate::FsError;
use crate::blocks::{BLOCKSIZE, BlockManager, write_block_spec};
use crate::codec::{le32_at, le_byte, lemma_le32_roundtrip, get_u32, put_u32};
use crate::inode::INODE_SIZE;

verus! {

/// Superblock position in the block structure.
pub const SUPERBLOCK_POSITION: usize = 0;

/// Superblock size in logical blocks.
pub const SUPERBLOCK_SIZE: usize = 1;

/// Blocks needed by a bitmap with one bit per block of the device, rounded up
/// to whole blocks.
pub open spec fn bitmap_blocks_needed(total_blocks: int) -> int {
    (total_blocks + 8 * (BLOCKSIZE as int) - 1) / (8 * (BLOCKSIZE as int))
}

/// Blocks needed by a table of `total_inodes` fixed-size inode records,
/// rounded up to whole blocks.
pub open spec fn inode_blocks_needed(total_inodes: int) -> int {
    (total_inodes * (INODE_SIZE as int) + (BLOCKSIZE as int) - 1) / (BLOCKSIZE as int)
}

/// Whether a device of `total_blocks` blocks can hold the superblock, a
/// non-empty bitmap region, a non-empty inode-table region for `total_inodes`
/// inodes, and at least one data block.
pub open spec fn layout_fits(total_blocks: int, total_inodes: int) -> bool {
    &&& total_inodes >= 1
    &&& 2 + bitmap_blocks_needed(total_blocks) + inode_blocks_needed(total_inodes) <= total_blocks
}

/// Whether every byte of a device of `total_blocks` blocks is addressable by
/// a machine-word byte offset — a machine limit, not a rule of the layout.
pub open spec fn device_addressable(total_blocks: u32) -> bool {
    (total_blocks as int) * (BLOCKSIZE as int) <= usize::MAX
}

/// The structure that stores the general information about the file system:
/// the inclusive block range of each region, the root-inode convention, the
/// allocation hint, and the free/total counters. It always occupies exactly
/// the first block of the system; the unused tail of that block is padding
/// and never semantically meaningful.
#[derive(Clone, Copy, Debug, PartialEq, Eq, Structural)]
pub struct Superblock {
    pub bitmap_first_block_position: u32,
    pub bitmap_last_block_position: u32,
    pub inode_array_first_block_position: u32,
    pub inode_array_last_block_position: u32,
    pub data_first_block_position: u32,
    pub data_last_block_position: u32,
    /// Position of the root directory's inode relative to the inode array;
    /// fixed at creation, by convention 0.
    pub root_inode_position: u32,
    /// Hint cursor for inode allocation. Never authoritative: allocation
    /// always verifies an inode's own free marker and never trusts this.
    pub first_free_inode_position: u32,
    /// Cached mirror of the number of blocks whose bitmap bit is free.
    pub total_free_blocks: u32,
    /// Cached mirror of the number of free records in the inode table.
    pub total_free_inodes: u32,
    pub total_blocks: u32,
    pub total_inodes: u32,
}

impl Superblock {
    /// The structural invariant: the regions are non-empty, contiguous, in
    /// the order superblock, bitmap, inode table, data, sized by the layout
    /// formulas, and end at the last block of the device.
    pub open spec fn wf(self) -> bool {
        &&& self.total_inodes >= 1
        &&& self.bitmap_first_block_position == 1
        &&& self.bitmap_last_block_position as int == self.bitmap_first_block_position as int
            + bitmap_blocks_needed(self.total_blocks as int) - 1
        &&& self.inode_array_first_block_position == self.bitmap_last_block_position + 1
        &&& self.inode_array_last_block_position as int
            == self.inode_array_first_block_position as int + inode_blocks_needed(
            self.total_inodes as int,
        ) - 1
        &&& self.data_first_block_position == self.inode_array_last_block_position + 1
        &&& self.data_first_block_position <= self.data_last_block_position
        &&& self.data_last_block_position as int == self.total_blocks as int - 1
        &&& self.root_inode_position == 0
        &&& self.first_free_inode_position <= self.total_inodes
        &&& self.total_free_blocks <= self.total_blocks
        &&& self.total_free_inodes <= self.total_inodes
    }

    pub open spec fn in_superblock_region(self, b: int) -> bool {
        b == 0
    }

    pub open spec fn in_bitmap_region(self, b: int) -> bool {
        self.bitmap_first_block_position <= b <= self.bitmap_last_block_position
    }

    pub open spec fn in_inode_region(self, b: int) -> bool {
        self.inode_array_first_block_position <= b <= self.inode_array_last_block_position
    }

    pub open spec fn in_data_region(self, b: int) -> bool {
        self.data_first_block_position <= b <= self.data_last_block_position
    }

    /// Deterministically derives every region boundary from the device size
    /// in blocks and the inode count: the bitmap gets enough blocks to hold
    /// one bit per block, the inode table enough blocks to hold every record,
    /// each region immediately follows the one before it, and the data region
    /// runs to the end of the device. Fails when the device cannot hold every
    /// region non-empty.
    pub fn compute(number_of_blocks: u32, number_of_inodes: u32) -> (r: Result<
        Superblock,
        FsError,
    >)
        ensures
            match r {
                Ok(sb) => layout_fits(number_of_blocks as int, number_of_inodes as int) && sb.wf()
                    && sb.total_blocks == number_of_blocks && sb.total_inodes == number_of_inodes
                    && sb.total_free_inodes == number_of_inodes && sb.total_free_blocks as int
                    == number_of_blocks as int - sb.data_first_block_position as int
                    && sb.first_free_inode_position == 0,
                Err(e) => e == FsError::DeviceTooSmall && !layout_fits(
                    number_of_blocks as int,
                    number_of_inodes as int,
                ),
            },
    {
        if number_of_inodes == 0 {
            return Err(FsError::DeviceTooSmall);
        }
        let bitmap_size: u64 = ((number_of_blocks as u64) + 8 * 2048 - 1) / (8 * 2048);
        let inode_size: u64 = ((number_of_inodes as u64) * 256 + 2048 - 1) / 2048;
        if 2 + bitmap_size + inode_size > number_of_blocks as u64 {
            return Err(FsError::DeviceTooSmall);
        }
        let bitmap_first_block_position: u32 = 1;
        let bitmap_last_block_position: u32 = bitmap_size as u32;
        let inode_array_first_block_position: u32 = bitmap_last_block_position + 1;
        let inode_array_last_block_position: u32 = inode_array_first_block_position + (inode_size
            as u32) - 1;
        let data_first_block_position: u32 = inode_array_last_block_position + 1;
        let data_last_block_position: u32 = number_of_blocks - 1;
        Ok(
            Superblock {
                bitmap_first_block_position,
                bitmap_last_block_position,
                inode_array_first_block_position,
                inode_array_last_block_position,
                data_first_block_position,
                data_last_block_position,
                root_inode_position: 0,
                first_free_inode_position: 0,
                total_free_blocks: number_of_blocks - data_first_block_position,
                total_free_inodes: number_of_inodes,
                total_blocks: number_of_blocks,
                total_inodes: number_of_inodes,
            },
        )
    }

    /// Computes the layout and persists the record into block 0 of the
    /// device. A superblock that cannot be computed leaves the device
    /// untouched: creation fails rather than claiming partial success.
    pub fn new(manager: &mut BlockManager, number_of_blocks: u32, number_of_inodes: u32) -> (r:
        Result<Superblock, FsError>)
        ensures
            match r {
                Ok(sb) => layout_fits(number_of_blocks as int, number_of_inodes as int) && sb.wf()
                    && sb.total_blocks == number_of_blocks && sb.total_inodes == number_of_inodes
                    && sb.total_free_inodes == number_of_inodes && sb.total_free_blocks as int
                    == number_of_blocks as int - sb.data_first_block_position as int
                    && sb.first_free_inode_position == 0 && final(manager)@ == write_block_spec(
                    old(manager)@,
                    SUPERBLOCK_POSITION as int,
                    sb.encoded(),
                ),
                Err(e) => e == FsError::DeviceTooSmall && !layout_fits(
                    number_of_blocks as int,
                    number_of_inodes as int,
                ) && final(manager)@ == old(manager)@,
            },
    {
        let superblock = match Self::compute(number_of_blocks, number_of_inodes) {
            Ok(sb) => sb,
            Err(e) => {
                return Err(e);
            },
        };
        match superblock.persist(manager) {
            Ok(_) => Ok(superblock),
            Err(e) => {
                proof {
                    assert(false);
                }
                Err(e)
            },
        }
    }

    /// The field stored at slot `k` of the fixed on-disk field order.
    pub open spec fn field(self, k: int) -> u32 {
        if k == 0 {
            self.bitmap_first_block_position
        } else if k == 1 {
            self.bitmap_last_block_position
        } else if k == 2 {
            self.inode_array_first_block_position
        } else if k == 3 {
            self.inode_array_last_block_position
        } else if k == 4 {
            self.data_first_block_position
        } else if k == 5 {
            self.data_last_block_position
        } else if k == 6 {
            self.root_inode_position
        } else if k == 7 {
            self.first_free_inode_position
        } else if k == 8 {
            self.total_free_blocks
        } else if k == 9 {
            self.total_free_inodes
        } else if k == 10 {
            self.total_blocks
        } else {
            self.total_inodes
        }
    }

    /// The exact bytes of the persisted record: twelve 32-bit little-endian
    /// fields in the fixed order, then zero padding to fill the block.
    pub open spec fn encoded(self) -> Seq<u8> {
        Seq::new(
            BLOCKSIZE as nat,
            |i: int|
                if i < 48 {
                    le_byte(self.field(i / 4), i % 4)
                } else {
                    0u8
                },
        )
    }

    /// Serializes the record into a block-size buffer.
    pub fn encode(&self) -> (r: Vec<u8>)
        ensures
            r@ == self.encoded(),
    {
        let mut buf: Vec<u8> = Vec::new();
        let mut i: usize = 0;
        while i < BLOCKSIZE
            invariant
                i <= BLOCKSIZE,
                buf@.len() == i,
                forall|j: int| 0 <= j < i ==> buf@[j] == 0u8,
            decreases BLOCKSIZE - i,
        {
            buf.push(0u8);
            i += 1;
        }
        let mut k: usize = 0;
        while k < 12
            invariant
                k <= 12,
                buf@.len() == BLOCKSIZE,
                forall|j: int| 0 <= j < 4 * k ==> buf@[j] == le_byte(self.field(j / 4), j % 4),
                forall|j: int| 4 * k <= j < BLOCKSIZE ==> buf@[j] == 0u8,
            decreases 12 - k,
        {
            let v = self.field_at(k);
            put_u32(&mut buf, 4 * k, v);
            proof {
                assert forall|j: int| 4 * k <= j < 4 * (k + 1) implies buf@[j] == le_byte(
                    self.field(j / 4),
                    j % 4,
                ) by {
                    assert(j / 4 == k as int && j % 4 == j - 4 * k);
                }
            }
            k += 1;
        }
        proof {
            assert(buf@ =~= self.encoded());
        }
        buf
    }

    /// The field stored at slot `k`, as executable code.
    fn field_at(&self, k: usize) -> (r: u32)
        requires
            k < 12,
        ensures
            r == self.field(k as int),
    {
        if k == 0 {
            self.bitmap_first_block_position
        } else if k == 1 {
            self.bitmap_last_block_position
        } else if k == 2 {
            self.inode_array_first_block_position
        } else if k == 3 {
            self.inode_array_last_block_position
        } else if k == 4 {
            self.data_first_block_position
        } else if k == 5 {
            self.data_last_block_position
        } else if k == 6 {
            self.root_inode_position
        } else if k == 7 {
            self.first_free_inode_position
        } else if k == 8 {
            self.total_free_blocks
        } else if k == 9 {
            self.total_free_inodes
        } else if k == 10 {
            self.total_blocks
        } else {
            self.total_inodes
        }
    }

    /// Reads the record fields back from the bytes of block 0, ignoring the
    /// padding tail.
    pub fn decode(block: &Vec<u8>) -> (r: Superblock)
        requires
            block@.len() == BLOCKSIZE,
        ensures
            forall|k: int| 0 <= k < 12 ==> r.field(k) == le32_at(block@, 4 * k),
    {
        Superblock {
            bitmap_first_block_position: get_u32(block, 0),
            bitmap_last_block_position: get_u32(block, 4),
            inode_array_first_block_position: get_u32(block, 8),
            inode_array_last_block_position: get_u32(block, 12),
            data_first_block_position: get_u32(block, 16),
            data_last_block_position: get_u32(block, 20),
            root_inode_position: get_u32(block, 24),
            first_free_inode_position: get_u32(block, 28),
            total_free_blocks: get_u32(block, 32),
            total_free_inodes: get_u32(block, 36),
            total_blocks: get_u32(block, 40),
            total_inodes: get_u32(block, 44),
        }
    }

    /// Decoding the bytes of an encoded superblock gives the record back:
    /// the persisted layout round-trips exactly.
    pub proof fn lemma_encode_decode_roundtrip(sb: Superblock, other: Superblock)
        requires
            forall|k: int| 0 <= k < 12 ==> other.field(k) == le32_at(sb.encoded(), 4 * k),
        ensures
            other == sb,
    {
        assert forall|k: int| 0 <= k < 12 implies sb.field(k) == le32_at(sb.encoded(), 4 * k) by {
            lemma_le32_roundtrip(sb.field(k));
            assert((4 * k) / 4 == k && (4 * k) % 4 == 0);
            assert((4 * k + 1) / 4 == k && (4 * k + 1) % 4 == 1);
            assert((4 * k + 2) / 4 == k && (4 * k + 2) % 4 == 2);
            assert((4 * k + 3) / 4 == k && (4 * k + 3) % 4 == 3);
        }
        assert(other.field(0) == sb.field(0));
        assert(other.field(1) == sb.field(1));
        assert(other.field(2) == sb.field(2));
        assert(other.field(3) == sb.field(3));
        assert(other.field(4) == sb.field(4));
        assert(other.field(5) == sb.field(5));
        assert(other.field(6) == sb.field(6));
        assert(other.field(7) == sb.field(7));
        assert(other.field(8) == sb.field(8));
        assert(other.field(9) == sb.field(9));
        assert(other.field(10) == sb.field(10));
        assert(other.field(11) == sb.field(11));
    }

    /// Serializes the fixed-layout record into block 0 of the device.
    pub fn persist(&self, manager: &mut BlockManager) -> (r: Result<usize, FsError>)
        ensures
            r == Ok::<usize, FsError>(BLOCKSIZE),
            final(manager)@ == write_block_spec(old(manager)@, SUPERBLOCK_POSITION as int, self.encoded()),
    {
        let buf = self.encode();
        manager.write_block(SUPERBLOCK_POSITION, &buf)
    }

    /// Law: for every well-formed superblock, the four regions — superblock,
    /// bitmap, inode table, data — are contiguous, pairwise non-overlapping,
    /// and together cover exactly the blocks 0 through total_blocks - 1.
    pub proof fn lemma_regions_partition_device(sb: Superblock)
        requires
            sb.wf(),
        ensures
            sb.in_superblock_region(0),
            sb.bitmap_first_block_position == 1,
            sb.inode_array_first_block_position == sb.bitmap_last_block_position + 1,
            sb.data_first_block_position == sb.inode_array_last_block_position + 1,
            sb.data_last_block_position == sb.total_blocks - 1,
            forall|b: int|
                0 <= b < sb.total_blocks ==> sb.in_superblock_region(b) || sb.in_bitmap_region(b)
                    || sb.in_inode_region(b) || sb.in_data_region(b),
            forall|b: int|
                !(sb.in_superblock_region(b) && sb.in_bitmap_region(b)) && !(
                sb.in_superblock_region(b) && sb.in_inode_region(b)) && !(sb.in_superblock_region(
                    b,
                ) && sb.in_data_region(b)) && !(sb.in_bitmap_region(b) && sb.in_inode_region(b))
                    && !(sb.in_bitmap_region(b) && sb.in_data_region(b)) && !(sb.in_inode_region(b)
                    && sb.in_data_region(b)),
    {
    }
}

} // verus!
