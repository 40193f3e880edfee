//! The inode: the fixed-size record that describes one file or directory —
//! type, permissions, timestamps, link count, sizes, and the pointer
//! structure of 12 direct pointers plus 3 levels of indirect pointers that
//! says which data blocks belong to it.
use vstd::prelude::*;

use crate::FsError;
use crate::codec::{le32_at, le_byte, lemma_le32_roundtrip, get_u32, put_u32};

verus! {

/// Size in bytes of an inode record.
pub const INODE_SIZE: usize = 256;

/// Amount of direct pointers that an inode can hold. A direct pointer is the
/// number of the data block that holds the data.
pub const INODE_DIRECT_POINTERS: usize = 12;

/// Amount of indirect pointers that an inode can hold. Indirect pointer 0 is
/// singly indirect, 1 doubly, 2 triply.
pub const INODE_INDIRECT_POINTERS: usize = 3;

/// A pointer slot holding 0 means "no block at this position yet": block 0 is
/// the superblock and never a valid data block number.
pub const UNALLOCATED: u32 = 0;

/// What an inode stands for.
#[derive(Clone, Copy, Debug, PartialEq, Eq, Structural)]
pub enum InodeType {
    Free,
    Directory,
    File,
}

/// The 3-bit capability mask (read/write/execute) of an inode. The mask with
/// only the write and execute bits has no name here, as no permission
/// combines those two alone.
#[derive(Clone, Copy, Debug, PartialEq, Eq, Structural)]
pub enum InodePermissions {
    NoAccess,
    ExecuteOnly,
    WriteOnly,
    ReadOnly,
    ReadExecute,
    ReadWrite,
    All,
}

/// The on-disk tag byte of an inode type.
pub open spec fn type_code(t: InodeType) -> u8 {
    match t {
        InodeType::Free => 0,
        InodeType::Directory => 1,
        InodeType::File => 2,
    }
}

/// The on-disk capability-mask byte of a permission value.
pub open spec fn permission_code(p: InodePermissions) -> u8 {
    match p {
        InodePermissions::NoAccess => 0,
        InodePermissions::ExecuteOnly => 1,
        InodePermissions::WriteOnly => 2,
        InodePermissions::ReadOnly => 4,
        InodePermissions::ReadExecute => 5,
        InodePermissions::ReadWrite => 6,
        InodePermissions::All => 7,
    }
}

impl InodeType {
    /// The character a directory listing shows for this type.
    pub fn as_char(&self) -> (r: char)
        ensures
            r == (match self {
                InodeType::Free => '\0',
                InodeType::Directory => 'd',
                InodeType::File => '-',
            }),
    {
        match self {
            InodeType::Free => '\0',
            InodeType::Directory => 'd',
            InodeType::File => '-',
        }
    }
}

/// One fixed-size inode record. The remaining bytes of the 256-byte on-disk
/// record are padding, never semantically meaningful.
#[derive(Clone, Debug)]
pub struct Inode {
    pub inode_type: InodeType,
    pub permissions: InodePermissions,
    /// Time of last data access.
    pub a_time: u32,
    /// Time of last modification of the data pointed to by the inode.
    pub m_time: u32,
    /// Time of last modification of the inode itself.
    pub c_time: u32,
    /// Number of directory entries referencing this inode.
    pub n_links: u32,
    pub size_in_logical_bytes: u32,
    pub num_of_occupied_blocks: u32,
    pub direct_pointers: Vec<u32>,
    pub indirect_pointers: Vec<u32>,
}

impl Inode {
    /// The structural invariant: the pointer arrays have their fixed widths.
    pub open spec fn wf(self) -> bool {
        &&& self.direct_pointers@.len() == INODE_DIRECT_POINTERS
        &&& self.indirect_pointers@.len() == INODE_INDIRECT_POINTERS
    }

    /// A record in the free state: everything zero.
    pub fn empty() -> (r: Inode)
        ensures
            r.wf(),
            r.inode_type == InodeType::Free,
            r.permissions == InodePermissions::NoAccess,
            r.a_time == 0 && r.m_time == 0 && r.c_time == 0,
            r.n_links == 0 && r.size_in_logical_bytes == 0 && r.num_of_occupied_blocks == 0,
            forall|k: int| 0 <= k < INODE_DIRECT_POINTERS ==> r.direct_pointers@[k] == 0,
            forall|k: int| 0 <= k < INODE_INDIRECT_POINTERS ==> r.indirect_pointers@[k] == 0,
    {
        Inode::fresh(InodeType::Free, InodePermissions::NoAccess, 0)
    }

    /// A record just claimed by allocation: the given type and permissions,
    /// every timestamp set to the creation time, link count zero, sizes zero,
    /// and every pointer slot unallocated.
    pub fn fresh(inode_type: InodeType, permissions: InodePermissions, now: u32) -> (r: Inode)
        ensures
            r.wf(),
            r.inode_type == inode_type,
            r.permissions == permissions,
            r.a_time == now && r.m_time == now && r.c_time == now,
            r.n_links == 0 && r.size_in_logical_bytes == 0 && r.num_of_occupied_blocks == 0,
            forall|k: int| 0 <= k < INODE_DIRECT_POINTERS ==> r.direct_pointers@[k] == 0,
            forall|k: int| 0 <= k < INODE_INDIRECT_POINTERS ==> r.indirect_pointers@[k] == 0,
    {
        let mut direct_pointers: Vec<u32> = Vec::new();
        let mut i: usize = 0;
        while i < INODE_DIRECT_POINTERS
            invariant
                i <= INODE_DIRECT_POINTERS,
                direct_pointers@.len() == i,
                forall|k: int| 0 <= k < i ==> direct_pointers@[k] == 0,
            decreases INODE_DIRECT_POINTERS - i,
        {
            direct_pointers.push(UNALLOCATED);
            i += 1;
        }
        let mut indirect_pointers: Vec<u32> = Vec::new();
        let mut k: usize = 0;
        while k < INODE_INDIRECT_POINTERS
            invariant
                k <= INODE_INDIRECT_POINTERS,
                indirect_pointers@.len() == k,
                forall|j: int| 0 <= j < k ==> indirect_pointers@[j] == 0,
            decreases INODE_INDIRECT_POINTERS - k,
        {
            indirect_pointers.push(UNALLOCATED);
            k += 1;
        }
        Inode {
            inode_type,
            permissions,
            a_time: now,
            m_time: now,
            c_time: now,
            n_links: 0,
            size_in_logical_bytes: 0,
            num_of_occupied_blocks: 0,
            direct_pointers,
            indirect_pointers,
        }
    }

    /// Whether 256 record bytes hold tag bytes that some record value
    /// encodes to.
    pub open spec fn record_valid(rec: Seq<u8>) -> bool {
        &&& rec[0] == 0 || rec[0] == 1 || rec[0] == 2
        &&& rec[1] == 0 || rec[1] == 1 || rec[1] == 2 || rec[1] == 4 || rec[1] == 5 || rec[1] == 6
            || rec[1] == 7
    }

    /// Whether this record holds exactly the values stored in 256 record
    /// bytes, padding ignored.
    pub open spec fn matches_record(self, rec: Seq<u8>) -> bool {
        &&& type_code(self.inode_type) == rec[0]
        &&& permission_code(self.permissions) == rec[1]
        &&& self.a_time == le32_at(rec, 4)
        &&& self.m_time == le32_at(rec, 8)
        &&& self.c_time == le32_at(rec, 12)
        &&& self.n_links == le32_at(rec, 16)
        &&& self.size_in_logical_bytes == le32_at(rec, 20)
        &&& self.num_of_occupied_blocks == le32_at(rec, 24)
        &&& forall|k: int|
            0 <= k < INODE_DIRECT_POINTERS ==> self.direct_pointers@[k] == le32_at(rec, 28 + 4 * k)
        &&& forall|k: int|
            0 <= k < INODE_INDIRECT_POINTERS ==> self.indirect_pointers@[k] == le32_at(
                rec,
                76 + 4 * k,
            )
    }

    /// Byte `i` of the 256-byte on-disk encoding of this record: the type and
    /// capability tag bytes, two alignment bytes, the eight 32-bit fields,
    /// the pointer arrays, then zero padding.
    pub open spec fn record_byte(self, i: int) -> u8 {
        if i == 0 {
            type_code(self.inode_type)
        } else if i == 1 {
            permission_code(self.permissions)
        } else if i < 4 {
            0u8
        } else if i < 8 {
            le_byte(self.a_time, i - 4)
        } else if i < 12 {
            le_byte(self.m_time, i - 8)
        } else if i < 16 {
            le_byte(self.c_time, i - 12)
        } else if i < 20 {
            le_byte(self.n_links, i - 16)
        } else if i < 24 {
            le_byte(self.size_in_logical_bytes, i - 20)
        } else if i < 28 {
            le_byte(self.num_of_occupied_blocks, i - 24)
        } else if i < 76 {
            le_byte(self.direct_pointers@[(i - 28) / 4], (i - 28) % 4)
        } else if i < 88 {
            le_byte(self.indirect_pointers@[(i - 76) / 4], (i - 76) % 4)
        } else {
            0u8
        }
    }

    /// The exact 256 bytes of the persisted record.
    pub open spec fn encoded(self) -> Seq<u8> {
        Seq::new(INODE_SIZE as nat, |i: int| self.record_byte(i))
    }

    /// An encoded record is valid and holds its own values back.
    pub proof fn lemma_encoded_matches(self)
        requires
            self.wf(),
        ensures
            Self::record_valid(self.encoded()),
            self.matches_record(self.encoded()),
    {
        let rec = self.encoded();
        lemma_le32_roundtrip(self.a_time);
        lemma_le32_roundtrip(self.m_time);
        lemma_le32_roundtrip(self.c_time);
        lemma_le32_roundtrip(self.n_links);
        lemma_le32_roundtrip(self.size_in_logical_bytes);
        lemma_le32_roundtrip(self.num_of_occupied_blocks);
        assert forall|k: int| 0 <= k < INODE_DIRECT_POINTERS implies self.direct_pointers@[k]
            == le32_at(rec, 28 + 4 * k) by {
            lemma_le32_roundtrip(self.direct_pointers@[k]);
            assert forall|t: int| 0 <= t < 4 implies rec[28 + 4 * k + t] == le_byte(
                self.direct_pointers@[k],
                t,
            ) by {
                let i = 28 + 4 * k + t;
                assert((i - 28) / 4 == k && (i - 28) % 4 == t);
            }
        }
        assert forall|k: int| 0 <= k < INODE_INDIRECT_POINTERS implies self.indirect_pointers@[k]
            == le32_at(rec, 76 + 4 * k) by {
            lemma_le32_roundtrip(self.indirect_pointers@[k]);
            assert forall|t: int| 0 <= t < 4 implies rec[76 + 4 * k + t] == le_byte(
                self.indirect_pointers@[k],
                t,
            ) by {
                let i = 76 + 4 * k + t;
                assert((i - 76) / 4 == k && (i - 76) % 4 == t);
            }
        }
    }

    /// Writes the 256-byte encoding of this record into `buf` at byte offset
    /// `base`; no byte outside the record range changes.
    pub fn encode_into(&self, buf: &mut Vec<u8>, base: usize)
        requires
            self.wf(),
            base + INODE_SIZE <= old(buf)@.len(),
        ensures
            final(buf)@.len() == old(buf)@.len(),
            forall|i: int|
                0 <= i < old(buf)@.len() && !(base <= i < base + INODE_SIZE) ==> final(buf)@[i]
                    == old(buf)@[i],
            final(buf)@.subrange(base as int, base as int + INODE_SIZE) == self.encoded(),
    {
        let n = buf.len();
        buf.set(base, self.type_byte());
        buf.set(base + 1, self.permission_byte());
        buf.set(base + 2, 0);
        buf.set(base + 3, 0);
        put_u32(buf, base + 4, self.a_time);
        put_u32(buf, base + 8, self.m_time);
        put_u32(buf, base + 12, self.c_time);
        put_u32(buf, base + 16, self.n_links);
        put_u32(buf, base + 20, self.size_in_logical_bytes);
        put_u32(buf, base + 24, self.num_of_occupied_blocks);
        let ghost mid = buf@;
        proof {
            assert(mid.len() == old(buf)@.len());
            assert(mid[base as int] == type_code(self.inode_type));
            assert(mid[base + 1] == permission_code(self.permissions));
            assert(mid[base + 2] == 0u8);
            assert(mid[base + 3] == 0u8);
            assert forall|t: int| 0 <= t < 4 implies mid[base + 4 + t] == le_byte(self.a_time, t)
                && mid[base + 8 + t] == le_byte(self.m_time, t) && mid[base + 12 + t] == le_byte(
                self.c_time,
                t,
            ) && mid[base + 16 + t] == le_byte(self.n_links, t) && mid[base + 20 + t] == le_byte(
                self.size_in_logical_bytes,
                t,
            ) && mid[base + 24 + t] == le_byte(self.num_of_occupied_blocks, t) by {
                assert(mid[(base + 4) + t] == le_byte(self.a_time, t));
                assert(mid[(base + 8) + t] == le_byte(self.m_time, t));
                assert(mid[(base + 12) + t] == le_byte(self.c_time, t));
                assert(mid[(base + 16) + t] == le_byte(self.n_links, t));
                assert(mid[(base + 20) + t] == le_byte(self.size_in_logical_bytes, t));
                assert(mid[(base + 24) + t] == le_byte(self.num_of_occupied_blocks, t));
            }
        }
        let mut k: usize = 0;
        while k < INODE_DIRECT_POINTERS
            invariant
                self.wf(),
                k <= INODE_DIRECT_POINTERS,
                base + INODE_SIZE <= buf@.len(),
                buf@.len() <= usize::MAX,
                buf@.len() == mid.len(),
                forall|i: int| 0 <= i < mid.len() && !(base + 28 <= i < base + 28 + 4 * k)
                    ==> buf@[i] == mid[i],
                forall|i: int|
                    base + 28 <= i < base + 28 + 4 * k ==> buf@[i] == le_byte(
                        self.direct_pointers@[(i - base - 28) / 4],
                        (i - base - 28) % 4,
                    ),
            decreases INODE_DIRECT_POINTERS - k,
        {
            put_u32(buf, base + 28 + 4 * k, self.direct_pointers[k]);
            proof {
                assert forall|i: int| base + 28 + 4 * k <= i < base + 28 + 4 * (k + 1)
                    implies buf@[i] == le_byte(
                    self.direct_pointers@[(i - base - 28) / 4],
                    (i - base - 28) % 4,
                ) by {
                    let t = i - (base + 28 + 4 * k);
                    assert((i - base - 28) / 4 == k as int && (i - base - 28) % 4 == t);
                }
            }
            k += 1;
        }
        let ghost mid2 = buf@;
        let mut j: usize = 0;
        while j < INODE_INDIRECT_POINTERS
            invariant
                self.wf(),
                j <= INODE_INDIRECT_POINTERS,
                base + INODE_SIZE <= buf@.len(),
                buf@.len() <= usize::MAX,
                buf@.len() == mid2.len(),
                forall|i: int| 0 <= i < mid2.len() && !(base + 76 <= i < base + 76 + 4 * j)
                    ==> buf@[i] == mid2[i],
                forall|i: int|
                    base + 76 <= i < base + 76 + 4 * j ==> buf@[i] == le_byte(
                        self.indirect_pointers@[(i - base - 76) / 4],
                        (i - base - 76) % 4,
                    ),
            decreases INODE_INDIRECT_POINTERS - j,
        {
            put_u32(buf, base + 76 + 4 * j, self.indirect_pointers[j]);
            proof {
                assert forall|i: int| base + 76 + 4 * j <= i < base + 76 + 4 * (j + 1)
                    implies buf@[i] == le_byte(
                    self.indirect_pointers@[(i - base - 76) / 4],
                    (i - base - 76) % 4,
                ) by {
                    let t = i - (base + 76 + 4 * j);
                    assert((i - base - 76) / 4 == j as int && (i - base - 76) % 4 == t);
                }
            }
            j += 1;
        }
        let ghost mid3 = buf@;
        let mut p: usize = 88;
        while p < INODE_SIZE
            invariant
                88 <= p <= INODE_SIZE,
                base + INODE_SIZE <= buf@.len(),
                buf@.len() <= usize::MAX,
                buf@.len() == mid3.len(),
                forall|i: int| 0 <= i < mid3.len() && !(base + 88 <= i < base + p) ==> buf@[i]
                    == mid3[i],
                forall|i: int| base + 88 <= i < base + p ==> buf@[i] == 0u8,
            decreases INODE_SIZE - p,
        {
            buf.set(base + p, 0);
            p += 1;
        }
        proof {
            assert forall|t: int| 0 <= t < INODE_SIZE implies buf@[base + t] == self.record_byte(
                t,
            ) by {
                if t < 28 {
                    assert(buf@[base + t] == mid3[base + t]);
                    assert(mid3[base + t] == mid2[base + t]);
                    assert(mid2[base + t] == mid[base + t]);
                } else if t < 76 {
                    assert(buf@[base + t] == mid3[base + t]);
                    assert(mid3[base + t] == mid2[base + t]);
                    assert(mid2[base + t] == le_byte(
                        self.direct_pointers@[(t - 28) / 4],
                        (t - 28) % 4,
                    ));
                } else if t < 88 {
                    assert(buf@[base + t] == mid3[base + t]);
                    assert(mid3[base + t] == le_byte(
                        self.indirect_pointers@[(t - 76) / 4],
                        (t - 76) % 4,
                    ));
                } else {
                    assert(buf@[base + t] == 0u8);
                }
            }
            assert forall|i: int|
                0 <= i < old(buf)@.len() && !(base <= i < base + INODE_SIZE) implies buf@[i]
                == old(buf)@[i] by {
                assert(buf@[i] == mid3[i]);
                assert(mid3[i] == mid2[i]);
                assert(mid2[i] == mid[i]);
                assert(mid[i] == old(buf)@[i]);
            }
            assert(buf@.subrange(base as int, base as int + INODE_SIZE) =~= self.encoded());
        }
    }

    /// The on-disk tag byte of this record's type.
    fn type_byte(&self) -> (r: u8)
        ensures
            r == type_code(self.inode_type),
    {
        match self.inode_type {
            InodeType::Free => 0,
            InodeType::Directory => 1,
            InodeType::File => 2,
        }
    }

    /// The on-disk capability-mask byte of this record's permissions.
    fn permission_byte(&self) -> (r: u8)
        ensures
            r == permission_code(self.permissions),
    {
        match self.permissions {
            InodePermissions::NoAccess => 0,
            InodePermissions::ExecuteOnly => 1,
            InodePermissions::WriteOnly => 2,
            InodePermissions::ReadOnly => 4,
            InodePermissions::ReadExecute => 5,
            InodePermissions::ReadWrite => 6,
            InodePermissions::All => 7,
        }
    }

    /// Reads a record back from the 256 bytes of `buf` at byte offset `base`.
    /// Fails when the tag bytes hold values that no record encodes to.
    pub fn decode_from(buf: &Vec<u8>, base: usize) -> (r: Result<Inode, FsError>)
        requires
            base + INODE_SIZE <= buf@.len(),
        ensures
            match r {
                Ok(inode) => Self::record_valid(
                    buf@.subrange(base as int, base as int + INODE_SIZE),
                ) && inode.wf() && inode.matches_record(
                    buf@.subrange(base as int, base as int + INODE_SIZE),
                ),
                Err(e) => e == FsError::CorruptRecord && !Self::record_valid(
                    buf@.subrange(base as int, base as int + INODE_SIZE),
                ),
            },
    {
        let n = buf.len();
        let ghost rec = buf@.subrange(base as int, base as int + INODE_SIZE);
        let inode_type = match buf[base] {
            0 => InodeType::Free,
            1 => InodeType::Directory,
            2 => InodeType::File,
            _ => {
                return Err(FsError::CorruptRecord);
            },
        };
        let permissions = match buf[base + 1] {
            0 => InodePermissions::NoAccess,
            1 => InodePermissions::ExecuteOnly,
            2 => InodePermissions::WriteOnly,
            4 => InodePermissions::ReadOnly,
            5 => InodePermissions::ReadExecute,
            6 => InodePermissions::ReadWrite,
            7 => InodePermissions::All,
            _ => {
                return Err(FsError::CorruptRecord);
            },
        };
        let mut direct_pointers: Vec<u32> = Vec::new();
        let mut k: usize = 0;
        while k < INODE_DIRECT_POINTERS
            invariant
                base + INODE_SIZE <= buf@.len(),
                buf@.len() <= usize::MAX,
                k <= INODE_DIRECT_POINTERS,
                direct_pointers@.len() == k,
                forall|i: int|
                    0 <= i < k ==> direct_pointers@[i] == le32_at(buf@, base + 28 + 4 * i),
            decreases INODE_DIRECT_POINTERS - k,
        {
            direct_pointers.push(get_u32(buf, base + 28 + 4 * k));
            k += 1;
        }
        let mut indirect_pointers: Vec<u32> = Vec::new();
        let mut j: usize = 0;
        while j < INODE_INDIRECT_POINTERS
            invariant
                base + INODE_SIZE <= buf@.len(),
                buf@.len() <= usize::MAX,
                j <= INODE_INDIRECT_POINTERS,
                indirect_pointers@.len() == j,
                forall|i: int|
                    0 <= i < j ==> indirect_pointers@[i] == le32_at(buf@, base + 76 + 4 * i),
            decreases INODE_INDIRECT_POINTERS - j,
        {
            indirect_pointers.push(get_u32(buf, base + 76 + 4 * j));
            j += 1;
        }
        let inode = Inode {
            inode_type,
            permissions,
            a_time: get_u32(buf, base + 4),
            m_time: get_u32(buf, base + 8),
            c_time: get_u32(buf, base + 12),
            n_links: get_u32(buf, base + 16),
            size_in_logical_bytes: get_u32(buf, base + 20),
            num_of_occupied_blocks: get_u32(buf, base + 24),
            direct_pointers,
            indirect_pointers,
        };
        proof {
            assert forall|off: int| 0 <= off && off + 4 <= INODE_SIZE implies le32_at(rec, off)
                == le32_at(buf@, base + off) by {
                assert(rec[off] == buf@[base + off]);
                assert(rec[off + 1] == buf@[base + off + 1]);
                assert(rec[off + 2] == buf@[base + off + 2]);
                assert(rec[off + 3] == buf@[base + off + 3]);
            }
        }
        Ok(inode)
    }
}

} // verus!
