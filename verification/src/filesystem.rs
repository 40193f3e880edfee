//! Filesystem creation and the data-block allocation transaction: computing
//! and persisting the superblock first, zero-filling the device, pre-marking
//! the reserved metadata blocks used in the bitmap, and keeping the
//! superblock's cached free-block counter in step with the authoritative
//! bitmap on every allocation and free.
use vstd::prelude::*;

use crate::FsError;
use crate::bitmap::{Bitmap, count_free, device_bit};
use crate::blocks::{BLOCKSIZE, BlockManager};
use crate::superblock::{Superblock, bitmap_blocks_needed, layout_fits, device_addressable};
use crate::inode_table::{record_free, lemma_record_in_table};

verus! {

/// Creates a fresh filesystem on the device: zero-fills every block, computes
/// and persists the superblock, and persists a bitmap with the superblock,
/// bitmap and inode-table blocks pre-marked used. Every inode record starts
/// free. Fails, leaving the device untouched, when the device cannot hold
/// every region.
#[verifier::rlimit(100)]
#[verifier::spinoff_prover]
pub fn format_device(manager: &mut BlockManager, number_of_blocks: u32, number_of_inodes: u32) -> (r: Result<(Superblock, Bitmap), FsError>)
    requires
        device_addressable(number_of_blocks),
    ensures
        match r {
            Ok((sb, bitmap)) => {
                &&& layout_fits(number_of_blocks as int, number_of_inodes as int)
                &&& sb.wf()
                &&& sb.total_blocks == number_of_blocks
                &&& sb.total_inodes == number_of_inodes
                &&& sb.total_free_inodes == number_of_inodes
                &&& sb.total_free_blocks as int == number_of_blocks as int
                    - sb.data_first_block_position as int
                &&& bitmap.wf()
                &&& bitmap@.len() == number_of_blocks
                &&& forall|b: int|
                    0 <= b < number_of_blocks ==> (bitmap@[b] <==> b
                        < sb.data_first_block_position)
                &&& count_free(bitmap@) == sb.total_free_blocks
                &&& final(manager)@.len() >= number_of_blocks as int * (BLOCKSIZE as int)
                &&& final(manager)@.subrange(0, BLOCKSIZE as int) == sb.encoded()
                &&& forall|i: int|
                    0 <= i < number_of_blocks ==> device_bit(final(manager)@, 1, i) == bitmap@[i]
                &&& forall|p: int|
                    0 <= p < number_of_inodes ==> record_free(final(manager)@, sb, p)
            },
            Err(e) => {
                &&& e == FsError::DeviceTooSmall
                &&& !layout_fits(number_of_blocks as int, number_of_inodes as int)
                &&& final(manager)@ == old(manager)@
            },
        },
{
    let sb = match Superblock::compute(number_of_blocks, number_of_inodes) {
        Ok(sb) => sb,
        Err(e) => {
            return Err(e);
        },
    };
    let ghost dev0 = old(manager)@;
    let ghost bs = BLOCKSIZE as int;
    let ghost nb = number_of_blocks as int;
    let mut b: u32 = 0;
    while b < number_of_blocks
        invariant
            b <= number_of_blocks,
            bs == BLOCKSIZE as int,
            nb == number_of_blocks as int,
            device_addressable(number_of_blocks),
            dev0 == old(manager)@,
            b == 0 ==> manager@.len() == dev0.len(),
            b >= 1 ==> manager@.len() == (if dev0.len() >= b * bs {
                dev0.len() as int
            } else {
                b * bs
            }),
            forall|i: int| 0 <= i < b * bs && i < manager@.len() ==> manager@[i] == 0u8,
            forall|i: int|
                b * bs <= i < manager@.len() ==> manager@[i] == (if i < dev0.len() {
                    dev0[i]
                } else {
                    0u8
                }),
        decreases number_of_blocks - b,
    {
        proof {
            assert((b as int + 1) * bs <= nb * bs) by (nonlinear_arith)
                requires
                    (b as int) < nb,
                    bs > 0,
            ;
            assert(b as int * bs + bs == (b as int + 1) * bs) by (nonlinear_arith);
        }
        match manager.zero_block(b as usize) {
            Ok(_) => {},
            Err(_) => {
                proof {
                    assert(false);
                }
            },
        }
        b += 1;
    }
    proof {
        assert(manager@.len() >= nb * bs);
        lemma_record_in_table(sb, 0);
        assert(sb.bitmap_last_block_position as int == bitmap_blocks_needed(nb));
        assert((1 + bitmap_blocks_needed(nb)) * bs <= nb * bs) by (nonlinear_arith)
            requires
                1 + bitmap_blocks_needed(nb) <= nb,
                bs > 0,
        ;
    }
    let ghost dev_zeroed = manager@;
    match sb.persist(manager) {
        Ok(_) => {},
        Err(_) => {
            proof {
                assert(false);
            }
        },
    }
    let mut bitmap = Bitmap::new(number_of_blocks);
    let reserved = sb.data_first_block_position;
    let mut m: u32 = 0;
    while m < reserved
        invariant
            m <= reserved,
            reserved < number_of_blocks,
            bitmap.wf(),
            bitmap@.len() == number_of_blocks,
            count_free(bitmap@) == number_of_blocks - m,
            forall|j: int| 0 <= j < number_of_blocks ==> (bitmap@[j] <==> j < m),
        decreases reserved - m,
    {
        match bitmap.set_used(m) {
            Ok(_) => {},
            Err(_) => {
                proof {
                    assert(false);
                }
            },
        }
        m += 1;
    }
    let ghost dev_before_bm = manager@;
    match bitmap.persist(manager, 1) {
        Ok(_) => {},
        Err(_) => {
            proof {
                assert(false);
            }
        },
    }
    proof {
        let region_end = (1 + bitmap_blocks_needed(nb)) * bs;
        assert(manager@.len() == dev_before_bm.len());
        assert(manager@.subrange(0, bs) =~= sb.encoded());
        assert forall|p: int| 0 <= p < number_of_inodes implies record_free(manager@, sb, p) by {
            lemma_record_in_table(sb, p);
            let base = crate::inode_table::record_base(sb, p);
            let rb = crate::inode_table::record_block(sb, p);
            assert(rb * bs <= base < (rb + 1) * bs) by (nonlinear_arith)
                requires
                    base == rb * bs + (p % 8) * 256,
                    0 <= (p % 8) * 256 <= bs - 256,
                    bs == 2048,
            ;
            assert((1 + bitmap_blocks_needed(nb)) * bs <= rb * bs) by (nonlinear_arith)
                requires
                    1 + bitmap_blocks_needed(nb) <= rb,
                    bs > 0,
            ;
            assert(region_end <= base);
            assert(base < nb * bs) by (nonlinear_arith)
                requires
                    base < (rb + 1) * bs,
                    rb + 1 <= nb,
                    bs > 0,
            ;
            assert(manager@[base] == dev_before_bm[base]);
            assert(dev_before_bm[base] == dev_zeroed[base]);
            assert(dev_zeroed[base] == 0u8);
        }
    }
    Ok((sb, bitmap))
}

/// Allocates the lowest-numbered free block, persists the mutated bitmap
/// into its reserved range, decrements the superblock's cached free-block
/// counter and persists the superblock — the bitmap write and the counter
/// update form one logical transaction. Fails with capacity exhaustion when
/// no block is free, and with a consistency error when the cached counter
/// contradicts the bitmap.
#[verifier::rlimit(100)]
pub fn allocate_block(manager: &mut BlockManager, sb: &mut Superblock, bitmap: &mut Bitmap) -> (r:
    Result<u32, FsError>)
    requires
        old(sb).wf(),
        old(bitmap).wf(),
        old(bitmap)@.len() == old(sb).total_blocks,
        device_addressable(old(sb).total_blocks),
        old(manager)@.len() >= old(sb).total_blocks as int * (BLOCKSIZE as int),
    ensures
        final(sb).wf(),
        final(bitmap).wf(),
        final(bitmap)@.len() == old(bitmap)@.len(),
        match r {
            Ok(b) => {
                &&& b < old(bitmap)@.len()
                &&& !old(bitmap)@[b as int]
                &&& forall|j: int| 0 <= j < b ==> old(bitmap)@[j]
                &&& final(bitmap)@ == old(bitmap)@.update(b as int, true)
                &&& count_free(final(bitmap)@) == count_free(old(bitmap)@) - 1
                &&& old(sb).total_free_blocks >= 1
                &&& *final(sb) == (Superblock {
                    total_free_blocks: (old(sb).total_free_blocks - 1) as u32,
                    ..*old(sb)
                })
                &&& forall|i: int|
                    0 <= i < old(bitmap)@.len() ==> device_bit(
                        final(manager)@,
                        old(sb).bitmap_first_block_position as int,
                        i,
                    ) == final(bitmap)@[i]
                &&& final(manager)@.subrange(0, BLOCKSIZE as int) == final(sb).encoded()
                &&& final(manager)@.len() == old(manager)@.len()
                &&& forall|i: int|
                    0 <= i < old(manager)@.len() && !(0 <= i < BLOCKSIZE) && !(
                    old(sb).bitmap_first_block_position as int * (BLOCKSIZE as int) <= i < (
                    old(sb).bitmap_last_block_position as int + 1) * (BLOCKSIZE as int))
                        ==> final(manager)@[i] == old(manager)@[i]
            },
            Err(e) => {
                &&& final(manager)@ == old(manager)@
                &&& final(bitmap)@ == old(bitmap)@
                &&& *final(sb) == *old(sb)
                &&& (e == FsError::CapacityExhausted ==> count_free(old(bitmap)@) == 0)
                &&& (e == FsError::Inconsistent ==> old(sb).total_free_blocks == 0 && count_free(
                    old(bitmap)@,
                ) > 0)
                &&& (e == FsError::CapacityExhausted || e == FsError::Inconsistent)
            },
        },
{
    if sb.total_free_blocks == 0 {
        let n = bitmap.read_free_count();
        if n == 0 {
            proof {
                crate::bitmap::lemma_count_free_bound(bitmap@);
            }
            return Err(FsError::CapacityExhausted);
        }
        return Err(FsError::Inconsistent);
    }
    let b = match bitmap.allocate() {
        Ok(b) => b,
        Err(_) => {
            return Err(FsError::CapacityExhausted);
        },
    };
    proof {
        let bs = BLOCKSIZE as int;
        let nb = old(sb).total_blocks as int;
        assert(1 + bitmap_blocks_needed(nb) <= nb);
        assert((1 + bitmap_blocks_needed(nb)) * bs <= nb * bs) by (nonlinear_arith)
            requires
                1 + bitmap_blocks_needed(nb) <= nb,
                bs > 0,
        ;
    }
    match bitmap.persist(manager, sb.bitmap_first_block_position) {
        Ok(_) => {},
        Err(_) => {
            proof {
                assert(false);
            }
        },
    }
    sb.total_free_blocks = sb.total_free_blocks - 1;
    let ghost dev1 = manager@;
    match sb.persist(manager) {
        Ok(_) => {},
        Err(_) => {
            proof {
                assert(false);
            }
        },
    }
    proof {
        let bs = BLOCKSIZE as int;
        let nb = old(sb).total_blocks as int;
        assert(manager@.subrange(0, bs) =~= sb.encoded());
        assert forall|i: int| 0 <= i < old(bitmap)@.len() implies device_bit(
            manager@,
            old(sb).bitmap_first_block_position as int,
            i,
        ) == bitmap@[i] by {
            assert(device_bit(dev1, 1, i) == bitmap@[i]);
            assert(bs + i / 8 < dev1.len());
            assert(manager@[bs + i / 8] == dev1[bs + i / 8]);
        }
        let bl = old(sb).bitmap_last_block_position as int;
        assert((bl + 1) * bs == (1 + bitmap_blocks_needed(nb)) * bs) by (nonlinear_arith)
            requires
                bl + 1 == 1 + bitmap_blocks_needed(nb),
        ;
        assert(manager@.len() == old(manager)@.len());
        assert forall|i: int|
            0 <= i < old(manager)@.len() && !(0 <= i < BLOCKSIZE) && !(
            old(sb).bitmap_first_block_position as int * bs <= i < (
            old(sb).bitmap_last_block_position as int + 1) * bs) implies manager@[i] == old(
            manager,
        )@[i] by {
            assert(manager@[i] == dev1[i]);
            assert(dev1[i] == old(manager)@[i]);
        }
    }
    Ok(b)
}

/// Frees the block at `index`, persists the mutated bitmap and increments
/// the superblock's cached free-block counter in the same logical
/// transaction. Freeing an already-free block is a double free and fails
/// loudly.
#[verifier::rlimit(100)]
pub fn free_block(manager: &mut BlockManager, sb: &mut Superblock, bitmap: &mut Bitmap, index: u32) -> (r: Result<(), FsError>)
    requires
        old(sb).wf(),
        old(bitmap).wf(),
        old(bitmap)@.len() == old(sb).total_blocks,
        device_addressable(old(sb).total_blocks),
        old(manager)@.len() >= old(sb).total_blocks as int * (BLOCKSIZE as int),
    ensures
        final(sb).wf(),
        final(bitmap).wf(),
        final(bitmap)@.len() == old(bitmap)@.len(),
        match r {
            Ok(_) => {
                &&& index < old(bitmap)@.len()
                &&& old(bitmap)@[index as int]
                &&& final(bitmap)@ == old(bitmap)@.update(index as int, false)
                &&& count_free(final(bitmap)@) == count_free(old(bitmap)@) + 1
                &&& old(sb).total_free_blocks < old(sb).total_blocks
                &&& *final(sb) == (Superblock {
                    total_free_blocks: (old(sb).total_free_blocks + 1) as u32,
                    ..*old(sb)
                })
                &&& forall|i: int|
                    0 <= i < old(bitmap)@.len() ==> device_bit(
                        final(manager)@,
                        old(sb).bitmap_first_block_position as int,
                        i,
                    ) == final(bitmap)@[i]
                &&& final(manager)@.subrange(0, BLOCKSIZE as int) == final(sb).encoded()
                &&& final(manager)@.len() == old(manager)@.len()
                &&& forall|i: int|
                    0 <= i < old(manager)@.len() && !(0 <= i < BLOCKSIZE) && !(
                    old(sb).bitmap_first_block_position as int * (BLOCKSIZE as int) <= i < (
                    old(sb).bitmap_last_block_position as int + 1) * (BLOCKSIZE as int))
                        ==> final(manager)@[i] == old(manager)@[i]
            },
            Err(e) => {
                &&& final(manager)@ == old(manager)@
                &&& final(bitmap)@ == old(bitmap)@
                &&& *final(sb) == *old(sb)
                &&& (e == FsError::OutOfRange ==> index >= old(bitmap)@.len())
                &&& (e == FsError::DoubleFree ==> index < old(bitmap)@.len() && !old(
                    bitmap,
                )@[index as int])
                &&& (e == FsError::Inconsistent ==> old(sb).total_free_blocks
                    >= old(sb).total_blocks)
                &&& (e == FsError::OutOfRange || e == FsError::DoubleFree
                    || e == FsError::Inconsistent)
            },
        },
{
    if index >= bitmap.bit_count() {
        return Err(FsError::OutOfRange);
    }
    if bitmap.is_free(index) {
        return Err(FsError::DoubleFree);
    }
    if sb.total_free_blocks >= sb.total_blocks {
        return Err(FsError::Inconsistent);
    }
    match bitmap.free(index) {
        Ok(_) => {},
        Err(_) => {
            proof {
                assert(false);
            }
        },
    }
    proof {
        let bs = BLOCKSIZE as int;
        let nb = old(sb).total_blocks as int;
        assert(1 + bitmap_blocks_needed(nb) <= nb);
        assert((1 + bitmap_blocks_needed(nb)) * bs <= nb * bs) by (nonlinear_arith)
            requires
                1 + bitmap_blocks_needed(nb) <= nb,
                bs > 0,
        ;
    }
    match bitmap.persist(manager, sb.bitmap_first_block_position) {
        Ok(_) => {},
        Err(_) => {
            proof {
                assert(false);
            }
        },
    }
    sb.total_free_blocks = sb.total_free_blocks + 1;
    let ghost dev1 = manager@;
    match sb.persist(manager) {
        Ok(_) => {},
        Err(_) => {
            proof {
                assert(false);
            }
        },
    }
    proof {
        let bs = BLOCKSIZE as int;
        let nb = old(sb).total_blocks as int;
        assert(manager@.subrange(0, bs) =~= sb.encoded());
        assert forall|i: int| 0 <= i < old(bitmap)@.len() implies device_bit(
            manager@,
            old(sb).bitmap_first_block_position as int,
            i,
        ) == bitmap@[i] by {
            assert(device_bit(dev1, 1, i) == bitmap@[i]);
            assert(bs + i / 8 < dev1.len());
            assert(manager@[bs + i / 8] == dev1[bs + i / 8]);
        }
        let bl = old(sb).bitmap_last_block_position as int;
        assert((bl + 1) * bs == (1 + bitmap_blocks_needed(nb)) * bs) by (nonlinear_arith)
            requires
                bl + 1 == 1 + bitmap_blocks_needed(nb),
        ;
        assert(manager@.len() == old(manager)@.len());
        assert forall|i: int|
            0 <= i < old(manager)@.len() && !(0 <= i < BLOCKSIZE) && !(
            old(sb).bitmap_first_block_position as int * bs <= i < (
            old(sb).bitmap_last_block_position as int + 1) * bs) implies manager@[i] == old(
            manager,
        )@[i] by {
            assert(manager@[i] == dev1[i]);
            assert(dev1[i] == old(manager)@[i]);
        }
    }
    Ok(())
}

} // verus!
