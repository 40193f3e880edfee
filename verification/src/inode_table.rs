//! The inode table: a fixed-size array of inode records stored in the
//! contiguous block range the superblock reserves for it. Records are read
//! and written by position with read-modify-write of whole blocks; allocation
//! scans the records' own free markers lowest-position-first and mirrors the
//! free counter in the superblock.
use vstd::prelude::*;

use crate::FsError;
use crate::blocks::{BLOCKSIZE, BlockManager, block_in_device, block_at};
use crate::codec::le32_at;
use crate::inode::{
    INODE_SIZE, Inode, InodeType, InodePermissions, type_code, permission_code,
};
use crate::superblock::Superblock;

verus! {

/// The block that holds the record at `position`: the table's first block
/// plus the whole blocks taken by the records before it.
pub open spec fn record_block(sb: Superblock, position: int) -> int {
    sb.inode_array_first_block_position + (position * (INODE_SIZE as int)) / (BLOCKSIZE as int)
}

/// The byte offset of the record at `position` within its block.
pub open spec fn record_offset(position: int) -> int {
    (position * (INODE_SIZE as int)) % (BLOCKSIZE as int)
}

/// The absolute device byte offset of the record at `position`.
pub open spec fn record_base(sb: Superblock, position: int) -> int {
    record_block(sb, position) * (BLOCKSIZE as int) + record_offset(position)
}

/// The 256 bytes of the record at `position` on the device.
pub open spec fn record_bytes(dev: Seq<u8>, sb: Superblock, position: int) -> Seq<u8> {
    dev.subrange(record_base(sb, position), record_base(sb, position) + (INODE_SIZE as int))
}

/// The type tag byte of the record at `position` on the device; tag 0 marks
/// the record free.
pub open spec fn record_free(dev: Seq<u8>, sb: Superblock, position: int) -> bool {
    dev[record_base(sb, position)] == 0u8
}

/// The bytes of a record freshly claimed by allocation: the given type and
/// permissions, every timestamp set to the creation time, and every counter,
/// size and pointer slot zero.
pub open spec fn fresh_record_bytes(
    rec: Seq<u8>,
    t: InodeType,
    p: InodePermissions,
    now: u32,
) -> bool {
    &&& rec.len() == INODE_SIZE
    &&& rec[0] == type_code(t)
    &&& rec[1] == permission_code(p)
    &&& le32_at(rec, 4) == now
    &&& le32_at(rec, 8) == now
    &&& le32_at(rec, 12) == now
    &&& le32_at(rec, 16) == 0
    &&& le32_at(rec, 20) == 0
    &&& le32_at(rec, 24) == 0
    &&& forall|k: int| 0 <= k < 12 ==> #[trigger] le32_at(rec, 28 + 4 * k) == 0
    &&& forall|k: int| 0 <= k < 3 ==> #[trigger] le32_at(rec, 76 + 4 * k) == 0
}

/// Whether some record of the table lies past the end of the device: the
/// only way a table scan can fail with a short read.
#[verifier::opaque]
pub open spec fn some_record_off_device(dev: Seq<u8>, sb: Superblock) -> bool {
    exists|q: int| 0 <= q < sb.total_inodes && !block_in_device(dev, record_block(sb, q))
}

/// Whether some record of the table is free.
#[verifier::opaque]
pub open spec fn some_record_free(dev: Seq<u8>, sb: Superblock) -> bool {
    exists|q: int| 0 <= q < sb.total_inodes && record_free(dev, sb, q)
}

/// Eight records fill a block exactly, so a record never straddles blocks:
/// its block index is its position divided by the records per block, its
/// offset the remainder times the record size.
pub proof fn lemma_record_position(p: int)
    requires
        p >= 0,
    ensures
        (p * (INODE_SIZE as int)) / (BLOCKSIZE as int) == p / 8,
        (p * (INODE_SIZE as int)) % (BLOCKSIZE as int) == (p % 8) * 256,
        0 <= (p % 8) * 256 <= (BLOCKSIZE as int) - (INODE_SIZE as int),
{
    vstd::arithmetic::div_mod::lemma_fundamental_div_mod(p, 8);
    let q = p / 8;
    let r = p % 8;
    assert(p * 256 == 2048 * q + r * 256) by (nonlinear_arith)
        requires
            p == 8 * q + r,
    ;
    vstd::arithmetic::div_mod::lemma_fundamental_div_mod_converse(p * 256, 2048, q, r * 256);
}

/// Every record position of a well-formed layout lies inside the inode-table
/// region.
pub proof fn lemma_record_in_table(sb: Superblock, p: int)
    requires
        sb.wf(),
        0 <= p < sb.total_inodes,
    ensures
        sb.inode_array_first_block_position <= record_block(sb, p)
            <= sb.inode_array_last_block_position,
        record_base(sb, p) == record_block(sb, p) * (BLOCKSIZE as int) + (p % 8) * 256,
        0 <= record_offset(p) <= (BLOCKSIZE as int) - (INODE_SIZE as int),
        record_block(sb, p) >= 2,
{
    lemma_record_position(p);
    vstd::arithmetic::div_mod::lemma_div_is_ordered(
        8 * (BLOCKSIZE as int),
        sb.total_blocks as int + 8 * (BLOCKSIZE as int) - 1,
        8 * (BLOCKSIZE as int),
    );
    assert(crate::superblock::bitmap_blocks_needed(sb.total_blocks as int) >= 1);
    let ti = sb.total_inodes as int;
    vstd::arithmetic::div_mod::lemma_fundamental_div_mod(p, 8);
    vstd::arithmetic::div_mod::lemma_fundamental_div_mod(ti * 256 + 2047, 2048);
    let needed = (ti * 256 + 2047) / 2048;
    assert(2048 * (p / 8) <= 256 * p) by (nonlinear_arith)
        requires
            p == 8 * (p / 8) + p % 8,
            p % 8 >= 0,
    ;
    assert(2048 * needed >= 256 * ti) by (nonlinear_arith)
        requires
            ti * 256 + 2047 == 2048 * needed + (ti * 256 + 2047) % 2048,
            (ti * 256 + 2047) % 2048 < 2048,
    ;
    assert(2048 * (p / 8) + 2048 <= 256 * (ti - 1) + 2048);
    assert(256 * (ti - 1) + 2048 <= 256 * ti + 1792) by (nonlinear_arith);
    assert(2048 * (p / 8) + 2048 <= 2048 * needed + 1792 + 2047 - 2047);
    assert(p / 8 < needed) by (nonlinear_arith)
        requires
            2048 * (p / 8) + 2048 <= 2048 * needed + 1792,
    ;
}

/// Reads the record at `position` back from the device. Fails with a short
/// read when the table block lies past the end of the device, and with a
/// corrupt-record error when the stored tag bytes hold values no record
/// encodes to.
pub fn read_inode(manager: &BlockManager, sb: &Superblock, position: u32) -> (r: Result<
    Inode,
    FsError,
>)
    requires
        sb.wf(),
        position < sb.total_inodes,
    ensures
        match r {
            Ok(inode) => {
                &&& block_in_device(manager@, record_block(*sb, position as int))
                &&& inode.wf()
                &&& Inode::record_valid(record_bytes(manager@, *sb, position as int))
                &&& inode.matches_record(record_bytes(manager@, *sb, position as int))
            },
            Err(e) => {
                &&& (e == FsError::ShortRead ==> !block_in_device(
                    manager@,
                    record_block(*sb, position as int),
                ))
                &&& (e == FsError::CorruptRecord ==> block_in_device(
                    manager@,
                    record_block(*sb, position as int),
                ) && !Inode::record_valid(record_bytes(manager@, *sb, position as int)))
                &&& (e == FsError::ShortRead || e == FsError::CorruptRecord)
            },
        },
{
    proof {
        lemma_record_in_table(*sb, position as int);
    }
    let block: u32 = sb.inode_array_first_block_position + position / 8;
    let offset: usize = ((position % 8) as usize) * 256;
    let mut buf: Vec<u8> = Vec::new();
    match manager.read_block(block as usize, &mut buf) {
        Ok(_) => {},
        Err(e) => {
            return Err(e);
        },
    }
    let r = Inode::decode_from(&buf, offset);
    proof {
        let base = record_base(*sb, position as int);
        let bs = BLOCKSIZE as int;
        assert(buf@.subrange(offset as int, offset as int + INODE_SIZE) =~= record_bytes(
            manager@,
            *sb,
            position as int,
        ));
    }
    r
}

/// Writes the record at `position` by read-modify-write of its whole block.
/// Fails with a short read when the table block lies past the end of the
/// device; the device is then unchanged.
pub fn write_inode(manager: &mut BlockManager, sb: &Superblock, position: u32, inode: &Inode) -> (r:
    Result<usize, FsError>)
    requires
        sb.wf(),
        position < sb.total_inodes,
        inode.wf(),
    ensures
        match r {
            Ok(n) => {
                &&& n == BLOCKSIZE
                &&& block_in_device(old(manager)@, record_block(*sb, position as int))
                &&& final(manager)@.len() == old(manager)@.len()
                &&& record_bytes(final(manager)@, *sb, position as int) == inode.encoded()
                &&& forall|i: int|
                    0 <= i < old(manager)@.len() && !(record_base(*sb, position as int) <= i
                        < record_base(*sb, position as int) + INODE_SIZE) ==> final(manager)@[i]
                        == old(manager)@[i]
            },
            Err(e) => {
                &&& e == FsError::ShortRead
                &&& !block_in_device(old(manager)@, record_block(*sb, position as int))
                &&& final(manager)@ == old(manager)@
            },
        },
{
    proof {
        lemma_record_in_table(*sb, position as int);
    }
    let block: u32 = sb.inode_array_first_block_position + position / 8;
    let offset: usize = ((position % 8) as usize) * 256;
    let mut buf: Vec<u8> = Vec::new();
    match manager.read_block(block as usize, &mut buf) {
        Ok(_) => {},
        Err(e) => {
            return Err(e);
        },
    }
    inode.encode_into(&mut buf, offset);
    let device_len = manager.device_len();
    let ghost dev0 = old(manager)@;
    let ghost bs = BLOCKSIZE as int;
    let ghost base = record_base(*sb, position as int);
    let r = manager.write_block(block as usize, &buf);
    proof {
        assert(block as int * bs + bs == (block as int + 1) * bs) by (nonlinear_arith);
        assert forall|i: int|
            0 <= i < dev0.len() && !(base <= i < base + INODE_SIZE) implies manager@[i]
            == dev0[i] by {
            if block as int * bs <= i < (block as int + 1) * bs {
                let t = i - block as int * bs;
                assert(manager@[i] == buf@[t]);
                assert(buf@[t] == block_at(dev0, block as int)[t]);
            }
        }
        assert(record_bytes(manager@, *sb, position as int) =~= inode.encoded());
    }
    r
}

/// After a record is rewritten and the superblock persisted into block 0,
/// the device holds the new record bytes, the new superblock bytes, and every
/// other byte unchanged.
proof fn lemma_persisted_record(
    dev0: Seq<u8>,
    dev1: Seq<u8>,
    dev2: Seq<u8>,
    sb: Superblock,
    sbx: Superblock,
    node: Inode,
    position: int,
)
    requires
        sb.wf(),
        0 <= position < sb.total_inodes,
        node.wf(),
        block_in_device(dev0, record_block(sb, position)),
        dev1.len() == dev0.len(),
        record_bytes(dev1, sb, position) == node.encoded(),
        forall|i: int|
            0 <= i < dev0.len() && !(record_base(sb, position) <= i < record_base(sb, position)
                + INODE_SIZE) ==> dev1[i] == dev0[i],
        dev2 == crate::blocks::write_block_spec(dev1, 0, sbx.encoded()),
    ensures
        dev2.len() == dev0.len(),
        record_bytes(dev2, sb, position) == node.encoded(),
        dev2.subrange(0, BLOCKSIZE as int) == sbx.encoded(),
        forall|i: int|
            0 <= i < dev0.len() && !(record_base(sb, position) <= i < record_base(sb, position)
                + INODE_SIZE) && !(0 <= i < BLOCKSIZE) ==> dev2[i] == dev0[i],
{
    lemma_record_in_table(sb, position);
    let bs = BLOCKSIZE as int;
    let rb = record_block(sb, position);
    assert(dev1.len() >= (rb + 1) * bs >= 3 * bs) by (nonlinear_arith)
        requires
            dev1.len() >= (rb + 1) * bs,
            rb >= 2,
            bs == 2048,
    ;
    assert(dev2.len() == dev1.len());
    assert(record_bytes(dev2, sb, position) =~= record_bytes(dev1, sb, position));
    assert(dev2.subrange(0, bs) =~= sbx.encoded());
}

/// Rewrites one record and persists the superblock into block 0: the two
/// writes of the allocation/free transaction.
fn write_record_and_superblock(
    manager: &mut BlockManager,
    sb: &Superblock,
    position: u32,
    node: &Inode,
) -> (r: Result<(), FsError>)
    requires
        sb.wf(),
        position < sb.total_inodes,
        node.wf(),
    ensures
        match r {
            Ok(_) => {
                &&& block_in_device(old(manager)@, record_block(*sb, position as int))
                &&& final(manager)@.len() == old(manager)@.len()
                &&& record_bytes(final(manager)@, *sb, position as int) == node.encoded()
                &&& final(manager)@.subrange(0, BLOCKSIZE as int) == sb.encoded()
                &&& forall|i: int|
                    0 <= i < old(manager)@.len() && !(record_base(*sb, position as int) <= i
                        < record_base(*sb, position as int) + INODE_SIZE) && !(0 <= i < BLOCKSIZE)
                        ==> final(manager)@[i] == old(manager)@[i]
            },
            Err(e) => {
                &&& e == FsError::ShortRead
                &&& !block_in_device(old(manager)@, record_block(*sb, position as int))
                &&& final(manager)@ == old(manager)@
            },
        },
{
    let ghost dev0 = old(manager)@;
    match write_inode(manager, sb, position, node) {
        Ok(_) => {},
        Err(e) => {
            return Err(e);
        },
    }
    let ghost dev1 = manager@;
    match sb.persist(manager) {
        Ok(_) => {},
        Err(_) => {
            proof {
                assert(false);
            }
        },
    }
    proof {
        lemma_persisted_record(dev0, dev1, manager@, *sb, *sb, *node, position as int);
    }
    Ok(())
}

/// Scans the table's own free markers lowest-position-first for a free
/// record.
fn find_free_record(manager: &BlockManager, sb: &Superblock) -> (r: Result<u32, FsError>)
    requires
        sb.wf(),
    ensures
        match r {
            Ok(pos) => pos < sb.total_inodes && block_in_device(
                manager@,
                record_block(*sb, pos as int),
            ) && record_free(manager@, *sb, pos as int) && (forall|q: int|
                0 <= q < pos ==> !record_free(manager@, *sb, q)),
            Err(e) => {
                &&& (e == FsError::CapacityExhausted ==> forall|q: int|
                    0 <= q < sb.total_inodes ==> !record_free(manager@, *sb, q))
                &&& (e == FsError::ShortRead ==> some_record_off_device(manager@, *sb))
                &&& (e == FsError::CapacityExhausted || e == FsError::ShortRead)
            },
        },
{
    let total = sb.total_inodes;
    let mut pos: u32 = 0;
    while pos < total
        invariant
            sb.wf(),
            total == sb.total_inodes,
            pos <= total,
            forall|q: int| 0 <= q < pos ==> !record_free(manager@, *sb, q),
        decreases total - pos,
    {
        let tag = match record_type_byte(manager, sb, pos) {
            Ok(tag) => tag,
            Err(e) => {
                proof {
                    reveal(some_record_off_device);
                    assert(!block_in_device(manager@, record_block(*sb, pos as int)));
                }
                return Err(e);
            },
        };
        if tag == 0 {
            return Ok(pos);
        }
        pos += 1;
    }
    Err(FsError::CapacityExhausted)
}

/// Claims the lowest-positioned free record: sets its type away from free,
/// zeroes its metadata and pointer arrays, stamps its timestamps with the
/// creation time, decrements the superblock's free-inode counter and persists
/// the superblock. Fails with capacity exhaustion when no record is free, and
/// with a consistency error when the counter contradicts the table.
#[verifier::rlimit(100)]
#[verifier::spinoff_prover]
pub fn allocate_inode(
    manager: &mut BlockManager,
    sb: &mut Superblock,
    inode_type: InodeType,
    permissions: InodePermissions,
    now: u32,
) -> (r: Result<u32, FsError>)
    requires
        old(sb).wf(),
        inode_type != InodeType::Free,
    ensures
        final(sb).wf(),
        match r {
            Ok(pos) => {
                &&& pos < old(sb).total_inodes
                &&& record_free(old(manager)@, *old(sb), pos as int)
                &&& forall|q: int|
                    0 <= q < pos ==> !record_free(old(manager)@, *old(sb), q)
                &&& old(sb).total_free_inodes >= 1
                &&& *final(sb) == (Superblock {
                    total_free_inodes: (old(sb).total_free_inodes - 1) as u32,
                    first_free_inode_position: (pos + 1) as u32,
                    ..*old(sb)
                })
                &&& final(manager)@.len() == old(manager)@.len()
                &&& fresh_record_bytes(
                    record_bytes(final(manager)@, *old(sb), pos as int),
                    inode_type,
                    permissions,
                    now,
                )
                &&& final(manager)@.subrange(0, BLOCKSIZE as int) == final(sb).encoded()
                &&& forall|i: int|
                    0 <= i < old(manager)@.len() && !(record_base(*old(sb), pos as int) <= i
                        < record_base(*old(sb), pos as int) + INODE_SIZE) && !(0 <= i < BLOCKSIZE)
                        ==> final(manager)@[i] == old(manager)@[i]
            },
            Err(e) => {
                &&& final(manager)@ == old(manager)@
                &&& *final(sb) == *old(sb)
                &&& (e == FsError::CapacityExhausted ==> forall|q: int|
                    0 <= q < old(sb).total_inodes ==> !record_free(old(manager)@, *old(sb), q))
                &&& (e == FsError::ShortRead ==> some_record_off_device(old(manager)@, *old(sb)))
                &&& (e == FsError::Inconsistent ==> old(sb).total_free_inodes == 0
                    && some_record_free(old(manager)@, *old(sb)))
                &&& (e == FsError::CapacityExhausted || e == FsError::ShortRead
                    || e == FsError::Inconsistent)
            },
        },
{
    let ghost dev0 = old(manager)@;
    let pos = match find_free_record(manager, sb) {
        Ok(pos) => pos,
        Err(e) => {
            return Err(e);
        },
    };
    if sb.total_free_inodes == 0 {
        proof {
            reveal(some_record_free);
            assert(record_free(dev0, *old(sb), pos as int));
        }
        return Err(FsError::Inconsistent);
    }
    let node = Inode::fresh(inode_type, permissions, now);
    sb.total_free_inodes = sb.total_free_inodes - 1;
    sb.first_free_inode_position = pos + 1;
    match write_record_and_superblock(manager, sb, pos, &node) {
        Ok(_) => {},
        Err(_) => {
            proof {
                assert(false);
            }
            return Err(FsError::ShortRead);
        },
    }
    proof {
        node.lemma_encoded_matches();
        assert(record_base(*sb, pos as int) == record_base(*old(sb), pos as int));
        assert(record_bytes(manager@, *old(sb), pos as int) =~= record_bytes(
            manager@,
            *sb,
            pos as int,
        ));
        assert(fresh_record_bytes(node.encoded(), inode_type, permissions, now));
        assert(fresh_record_bytes(
            record_bytes(manager@, *old(sb), pos as int),
            inode_type,
            permissions,
            now,
        ));
    }
    Ok(pos)
}

/// Resets the record at `position` to the free state — every byte of the
/// record zero — and increments the superblock's free-inode counter,
/// persisting the superblock. Freeing a record that is already free is a
/// double free and fails loudly; releasing the record's data and pointer
/// blocks first is the deletion workflow's obligation, not enforced here.
#[verifier::rlimit(100)]
#[verifier::spinoff_prover]
pub fn free_inode(manager: &mut BlockManager, sb: &mut Superblock, position: u32) -> (r: Result<
    (),
    FsError,
>)
    requires
        old(sb).wf(),
        position < old(sb).total_inodes,
    ensures
        final(sb).wf(),
        match r {
            Ok(_) => {
                &&& !record_free(old(manager)@, *old(sb), position as int)
                &&& old(sb).total_free_inodes < old(sb).total_inodes
                &&& *final(sb) == (Superblock {
                    total_free_inodes: (old(sb).total_free_inodes + 1) as u32,
                    ..*old(sb)
                })
                &&& final(manager)@.len() == old(manager)@.len()
                &&& fresh_record_bytes(
                    record_bytes(final(manager)@, *old(sb), position as int),
                    InodeType::Free,
                    InodePermissions::NoAccess,
                    0,
                )
                &&& final(manager)@.subrange(0, BLOCKSIZE as int) == final(sb).encoded()
                &&& forall|i: int|
                    0 <= i < old(manager)@.len() && !(record_base(*old(sb), position as int) <= i
                        < record_base(*old(sb), position as int) + INODE_SIZE) && !(0 <= i
                        < BLOCKSIZE) ==> final(manager)@[i] == old(manager)@[i]
            },
            Err(e) => {
                &&& final(manager)@ == old(manager)@
                &&& *final(sb) == *old(sb)
                &&& (e == FsError::DoubleFree ==> record_free(
                    old(manager)@,
                    *old(sb),
                    position as int,
                ))
                &&& (e == FsError::ShortRead ==> !block_in_device(
                    old(manager)@,
                    record_block(*old(sb), position as int),
                ))
                &&& (e == FsError::Inconsistent ==> old(sb).total_free_inodes
                    >= old(sb).total_inodes && !record_free(
                    old(manager)@,
                    *old(sb),
                    position as int,
                ))
                &&& (e == FsError::DoubleFree || e == FsError::ShortRead
                    || e == FsError::Inconsistent)
            },
        },
{
    let tag = match record_type_byte(manager, sb, position) {
        Ok(tag) => tag,
        Err(e) => {
            return Err(e);
        },
    };
    if tag == 0 {
        return Err(FsError::DoubleFree);
    }
    if sb.total_free_inodes >= sb.total_inodes {
        return Err(FsError::Inconsistent);
    }
    let node = Inode::empty();
    sb.total_free_inodes = sb.total_free_inodes + 1;
    match write_record_and_superblock(manager, sb, position, &node) {
        Ok(_) => {},
        Err(_) => {
            proof {
                assert(false);
            }
            return Err(FsError::ShortRead);
        },
    }
    proof {
        node.lemma_encoded_matches();
        assert(record_base(*sb, position as int) == record_base(*old(sb), position as int));
        assert(record_bytes(manager@, *old(sb), position as int) =~= record_bytes(
            manager@,
            *sb,
            position as int,
        ));
        assert(fresh_record_bytes(
            node.encoded(),
            InodeType::Free,
            InodePermissions::NoAccess,
            0,
        ));
        assert(fresh_record_bytes(
            record_bytes(manager@, *old(sb), position as int),
            InodeType::Free,
            InodePermissions::NoAccess,
            0,
        ));
        assert(manager@.len() == old(manager)@.len());
        assert(manager@.subrange(0, BLOCKSIZE as int) == sb.encoded());
        assert forall|i: int|
            0 <= i < old(manager)@.len() && !(record_base(*old(sb), position as int) <= i
                < record_base(*old(sb), position as int) + INODE_SIZE) && !(0 <= i < BLOCKSIZE)
            implies manager@[i] == old(manager)@[i] by {
            assert(!(record_base(*sb, position as int) <= i < record_base(*sb, position as int)
                + INODE_SIZE));
        }
    }
    Ok(())
}

/// Reads the type tag byte of the record at `position`.
fn record_type_byte(manager: &BlockManager, sb: &Superblock, position: u32) -> (r: Result<
    u8,
    FsError,
>)
    requires
        sb.wf(),
        position < sb.total_inodes,
    ensures
        match r {
            Ok(tag) => block_in_device(manager@, record_block(*sb, position as int)) && tag
                == manager@[record_base(*sb, position as int)] && (tag == 0 <==> record_free(
                manager@,
                *sb,
                position as int,
            )),
            Err(e) => e == FsError::ShortRead && !block_in_device(
                manager@,
                record_block(*sb, position as int),
            ),
        },
{
    proof {
        lemma_record_in_table(*sb, position as int);
    }
    let block: u32 = sb.inode_array_first_block_position + position / 8;
    let offset: usize = ((position % 8) as usize) * 256;
    let mut buf: Vec<u8> = Vec::new();
    match manager.read_block(block as usize, &mut buf) {
        Ok(_) => {},
        Err(e) => {
            return Err(e);
        },
    }
    Ok(buf[offset])
}

} // verus!
