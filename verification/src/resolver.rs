//! The indirection resolver: converts a logical block index within a file
//! into a physical block number by walking the inode's direct pointers or
//! descending through indirect pointer blocks, allocating intermediate
//! pointer blocks on demand when the inode is being extended, and reporting a
//! hole when only reading. A pointer block is an ordinary data block
//! reinterpreted as an array of 512 little-endian block numbers.
use vstd::prelude::*;

use crate::FsError;
use crate::bitmap::{Bitmap, count_free};
use crate::blocks::{BLOCKSIZE, BlockManager, block_in_device, block_at};
use crate::codec::{le32_at, get_u32, put_u32};
use crate::inode::{Inode, INODE_DIRECT_POINTERS};

verus! {

/// Total number of pointers that a pointer block can contain: a block holds
/// 512 four-byte block numbers.
pub const N_POINTERS: usize = 2048 / 4;

/// The largest logical block index the pointer structure can represent: 12
/// direct slots, then one, two and three levels of indirection.
pub const MAX_LOGICAL_INDEX: u64 = 12 + 512 + 512 * 512 + 512 * 512 * 512 - 1;

/// How many data blocks a pointer tree of the given depth addresses below
/// one slot: one for a data pointer, 512 times more per indirection level.
pub open spec fn pow_entries(depth: nat) -> int
    decreases depth,
{
    if depth == 0 {
        1
    } else {
        512 * pow_entries((depth - 1) as nat)
    }
}

/// Entry `idx` of the pointer block at `block`: the 32-bit little-endian
/// value stored at its `idx`-th four-byte slot.
pub open spec fn ptr_entry(dev: Seq<u8>, block: u32, idx: int) -> u32 {
    le32_at(dev, block * (BLOCKSIZE as int) + 4 * idx)
}

/// The physical block a pointer tree resolves to: `root` is the tree's root
/// slot value, `depth` the number of pointer-block levels below it (0 means
/// `root` is the data block itself), `rem` the logical index within the
/// tree. A zero slot anywhere makes the result 0: a hole.
pub open spec fn resolve_chain(dev: Seq<u8>, root: u32, depth: nat, rem: int) -> u32
    decreases depth,
{
    if root == 0 {
        0
    } else if depth == 0 {
        root
    } else {
        let stride = pow_entries((depth - 1) as nat);
        resolve_chain(
            dev,
            ptr_entry(dev, root, rem / stride),
            (depth - 1) as nat,
            rem % stride,
        )
    }
}

/// Whether every pointer block the walk visits lies within the device.
pub open spec fn chain_in_bounds(dev: Seq<u8>, root: u32, depth: nat, rem: int) -> bool
    decreases depth,
{
    root == 0 || depth == 0 || {
        let stride = pow_entries((depth - 1) as nat);
        block_in_device(dev, root as int) && chain_in_bounds(
            dev,
            ptr_entry(dev, root, rem / stride),
            (depth - 1) as nat,
            rem % stride,
        )
    }
}

/// The pointer blocks the walk visits, root first.
pub open spec fn chain_nodes(dev: Seq<u8>, root: u32, depth: nat, rem: int) -> Seq<u32>
    decreases depth,
{
    if root == 0 || depth == 0 {
        Seq::empty()
    } else {
        let stride = pow_entries((depth - 1) as nat);
        seq![root] + chain_nodes(
            dev,
            ptr_entry(dev, root, rem / stride),
            (depth - 1) as nat,
            rem % stride,
        )
    }
}

/// Whether a block sequence holds the block numbered `x`.
pub open spec fn nodes_contain(nodes: Seq<u32>, x: int) -> bool {
    exists|k: int| 0 <= k < nodes.len() && nodes[k] == x
}

/// A structurally sound pointer tree: every pointer block the walk visits
/// lies within the device, is marked used in the bitmap, and appears only
/// once along the walk.
pub open spec fn chain_ok(dev: Seq<u8>, bm: Seq<bool>, root: u32, depth: nat, rem: int) -> bool
    decreases depth,
{
    root == 0 || depth == 0 || {
        let stride = pow_entries((depth - 1) as nat);
        let next = ptr_entry(dev, root, rem / stride);
        &&& block_in_device(dev, root as int)
        &&& 0 < root
        &&& (root as int) < bm.len()
        &&& bm[root as int]
        &&& !nodes_contain(chain_nodes(dev, next, (depth - 1) as nat, rem % stride), root as int)
        &&& chain_ok(dev, bm, next, (depth - 1) as nat, rem % stride)
    }
}

/// How many blocks a write-mode walk must allocate to complete the tree: the
/// first zero slot costs one block per remaining level plus the data block.
pub open spec fn missing_count(dev: Seq<u8>, root: u32, depth: nat, rem: int) -> int
    decreases depth,
{
    if root == 0 {
        depth as int + 1
    } else if depth == 0 {
        0
    } else {
        let stride = pow_entries((depth - 1) as nat);
        missing_count(dev, ptr_entry(dev, root, rem / stride), (depth - 1) as nat, rem % stride)
    }
}

/// The physical block holding logical block `l` of the file the inode
/// describes, or 0 for a hole. Indexes 0 through 11 read the direct
/// pointers; later indexes descend through the singly, doubly and triply
/// indirect trees in turn.
pub open spec fn resolve_spec(dev: Seq<u8>, inode: Inode, l: int) -> u32 {
    if l < 12 {
        inode.direct_pointers@[l]
    } else if l < 12 + 512 {
        resolve_chain(dev, inode.indirect_pointers@[0], 1, l - 12)
    } else if l < 12 + 512 + 512 * 512 {
        resolve_chain(dev, inode.indirect_pointers@[1], 2, l - 12 - 512)
    } else {
        resolve_chain(dev, inode.indirect_pointers@[2], 3, l - 12 - 512 - 512 * 512)
    }
}

/// Whether every pointer block a resolve of `l` visits lies in the device.
pub open spec fn resolve_in_bounds(dev: Seq<u8>, inode: Inode, l: int) -> bool {
    if l < 12 {
        true
    } else if l < 12 + 512 {
        chain_in_bounds(dev, inode.indirect_pointers@[0], 1, l - 12)
    } else if l < 12 + 512 + 512 * 512 {
        chain_in_bounds(dev, inode.indirect_pointers@[1], 2, l - 12 - 512)
    } else {
        chain_in_bounds(dev, inode.indirect_pointers@[2], 3, l - 12 - 512 - 512 * 512)
    }
}

/// Structural soundness of the pointer tree a resolve of `l` walks.
pub open spec fn resolve_chain_ok(dev: Seq<u8>, bm: Seq<bool>, inode: Inode, l: int) -> bool {
    if l < 12 || l > MAX_LOGICAL_INDEX {
        true
    } else if l < 12 + 512 {
        chain_ok(dev, bm, inode.indirect_pointers@[0], 1, l - 12)
    } else if l < 12 + 512 + 512 * 512 {
        chain_ok(dev, bm, inode.indirect_pointers@[1], 2, l - 12 - 512)
    } else {
        chain_ok(dev, bm, inode.indirect_pointers@[2], 3, l - 12 - 512 - 512 * 512)
    }
}

/// The pointer blocks a resolve of `l` walks through.
pub open spec fn resolve_nodes(dev: Seq<u8>, inode: Inode, l: int) -> Seq<u32> {
    if l < 12 {
        Seq::empty()
    } else if l < 12 + 512 {
        chain_nodes(dev, inode.indirect_pointers@[0], 1, l - 12)
    } else if l < 12 + 512 + 512 * 512 {
        chain_nodes(dev, inode.indirect_pointers@[1], 2, l - 12 - 512)
    } else {
        chain_nodes(dev, inode.indirect_pointers@[2], 3, l - 12 - 512 - 512 * 512)
    }
}

/// How many blocks a write-mode resolve of `l` must allocate.
pub open spec fn resolve_missing(dev: Seq<u8>, inode: Inode, l: int) -> int {
    if l < 12 {
        if inode.direct_pointers@[l] == 0 {
            1
        } else {
            0
        }
    } else if l < 12 + 512 {
        missing_count(dev, inode.indirect_pointers@[0], 1, l - 12)
    } else if l < 12 + 512 + 512 * 512 {
        missing_count(dev, inode.indirect_pointers@[1], 2, l - 12 - 512)
    } else {
        missing_count(dev, inode.indirect_pointers@[2], 3, l - 12 - 512 - 512 * 512)
    }
}

/// Law: a resolve of a direct index depends on the inode alone — the device
/// is never consulted, and the result is exactly the direct pointer slot.
pub proof fn lemma_direct_resolve_reads_no_blocks(
    dev1: Seq<u8>,
    dev2: Seq<u8>,
    inode: Inode,
    l: int,
)
    requires
        0 <= l < INODE_DIRECT_POINTERS,
    ensures
        resolve_spec(dev1, inode, l) == inode.direct_pointers@[l],
        resolve_spec(dev1, inode, l) == resolve_spec(dev2, inode, l),
{
}

/// The stride of one slot at the given number of remaining pointer levels.
fn stride_for(d: u32) -> (r: u64)
    requires
        1 <= d <= 3,
    ensures
        r as int == pow_entries((d - 1) as nat),
        r >= 1,
{
    proof {
        assert(pow_entries(0) == 1);
        assert(pow_entries(1) == 512 * pow_entries(0));
        assert(pow_entries(2) == 512 * pow_entries(1));
    }
    if d == 1 {
        1
    } else if d == 2 {
        512
    } else {
        512 * 512
    }
}

/// Reads entry `idx` of the pointer block at `block`.
fn read_ptr_entry(manager: &BlockManager, block: u32, idx: u64) -> (r: Result<u32, FsError>)
    requires
        idx < 512,
    ensures
        match r {
            Ok(e) => block_in_device(manager@, block as int) && e == ptr_entry(
                manager@,
                block,
                idx as int,
            ),
            Err(e) => e == FsError::ShortRead && !block_in_device(manager@, block as int),
        },
{
    let mut buf: Vec<u8> = Vec::new();
    match manager.read_block(block as usize, &mut buf) {
        Ok(_) => {},
        Err(e) => {
            return Err(e);
        },
    }
    let v = get_u32(&buf, (idx as usize) * 4);
    proof {
        let off = block as int * (BLOCKSIZE as int) + 4 * idx;
        assert(buf@[4 * idx] == manager@[off]);
        assert(buf@[4 * idx + 1] == manager@[off + 1]);
        assert(buf@[4 * idx + 2] == manager@[off + 2]);
        assert(buf@[4 * idx + 3] == manager@[off + 3]);
    }
    Ok(v)
}

/// Writes entry `idx` of the pointer block at `block` by read-modify-write
/// of the whole block; no other byte of the device changes.
fn write_ptr_entry(manager: &mut BlockManager, block: u32, idx: u64, value: u32) -> (r: Result<
    (),
    FsError,
>)
    requires
        idx < 512,
    ensures
        match r {
            Ok(_) => {
                &&& block_in_device(old(manager)@, block as int)
                &&& final(manager)@.len() == old(manager)@.len()
                &&& ptr_entry(final(manager)@, block, idx as int) == value
                &&& forall|i: int|
                    0 <= i < old(manager)@.len() && !(block * (BLOCKSIZE as int) + 4 * idx <= i
                        < block * (BLOCKSIZE as int) + 4 * idx + 4) ==> final(manager)@[i] == old(
                        manager,
                    )@[i]
            },
            Err(e) => {
                &&& e == FsError::ShortRead
                &&& !block_in_device(old(manager)@, block as int)
                &&& final(manager)@ == old(manager)@
            },
        },
{
    let mut buf: Vec<u8> = Vec::new();
    match manager.read_block(block as usize, &mut buf) {
        Ok(_) => {},
        Err(e) => {
            return Err(e);
        },
    }
    let device_len = manager.device_len();
    put_u32(&mut buf, (idx as usize) * 4, value);
    let ghost dev0 = old(manager)@;
    let ghost bs = BLOCKSIZE as int;
    let r = manager.write_block(block as usize, &buf);
    proof {
        assert(block as int * bs + bs == (block as int + 1) * bs) by (nonlinear_arith);
        let off = block as int * bs + 4 * idx;
        assert forall|i: int|
            0 <= i < dev0.len() && !(off <= i < off + 4) implies manager@[i] == dev0[i] by {
            if block as int * bs <= i < (block as int + 1) * bs {
                let t = i - block as int * bs;
                assert(manager@[i] == buf@[t]);
                assert(buf@[t] == block_at(dev0, block as int)[t]);
            }
        }
        assert(manager@[off] == buf@[4 * idx]);
        assert(manager@[off + 1] == buf@[4 * idx + 1]);
        assert(manager@[off + 2] == buf@[4 * idx + 2]);
        assert(manager@[off + 3] == buf@[4 * idx + 3]);
    }
    Ok(())
}

/// Walks the pointer tree below one slot in read mode. `root` is the slot's
/// value, `depth` the pointer levels below it, `rem` the index inside the
/// tree.
fn resolve_chain_read(manager: &BlockManager, root: u32, depth: u32, rem: u64) -> (r: Result<
    u32,
    FsError,
>)
    requires
        1 <= depth <= 3,
        rem < pow_entries(depth as nat),
    ensures
        match r {
            Ok(b) => chain_in_bounds(manager@, root, depth as nat, rem as int) && b
                == resolve_chain(manager@, root, depth as nat, rem as int),
            Err(e) => e == FsError::ShortRead && !chain_in_bounds(
                manager@,
                root,
                depth as nat,
                rem as int,
            ),
        },
{
    let mut cur: u32 = root;
    let mut d: u32 = depth;
    let mut r: u64 = rem;
    while d > 0
        invariant
            d <= depth,
            1 <= depth <= 3,
            r < pow_entries(d as nat),
            resolve_chain(manager@, root, depth as nat, rem as int) == resolve_chain(
                manager@,
                cur,
                d as nat,
                r as int,
            ),
            chain_in_bounds(manager@, root, depth as nat, rem as int) == chain_in_bounds(
                manager@,
                cur,
                d as nat,
                r as int,
            ),
        decreases d,
    {
        if cur == 0 {
            return Ok(0);
        }
        let stride = stride_for(d);
        let idx = r / stride;
        let r2 = r % stride;
        proof {
            assert(pow_entries(d as nat) == 512 * pow_entries((d - 1) as nat));
            assert(idx < 512) by (nonlinear_arith)
                requires
                    idx == r / stride,
                    r < 512 * (stride as int),
                    stride >= 1,
                    idx == (r as int) / (stride as int),
            ;
            assert(r2 < stride);
        }
        let e = match read_ptr_entry(manager, cur, idx) {
            Ok(e) => e,
            Err(err) => {
                return Err(err);
            },
        };
        cur = e;
        d = d - 1;
        r = r2;
    }
    Ok(cur)
}

/// A byte index lies in block `x` exactly when its block quotient is `x`.
proof fn lemma_block_of(i: int, x: int)
    requires
        i >= 0,
        x >= 0,
    ensures
        (i / (BLOCKSIZE as int) == x) <==> (x * (BLOCKSIZE as int) <= i < (x + 1) * (BLOCKSIZE
            as int)),
{
    vstd::arithmetic::div_mod::lemma_fundamental_div_mod(i, BLOCKSIZE as int);
    if x * (BLOCKSIZE as int) <= i < (x + 1) * (BLOCKSIZE as int) {
        vstd::arithmetic::div_mod::lemma_fundamental_div_mod_converse(
            i,
            BLOCKSIZE as int,
            x,
            i - x * (BLOCKSIZE as int),
        );
    }
}

/// A walk list headed by `head` holds `x` exactly when `x` is the head or
/// lies in the rest.
proof fn lemma_nodes_contain_cons(head: u32, rest: Seq<u32>, x: int)
    ensures
        nodes_contain(seq![head] + rest, x) <==> (head == x || nodes_contain(rest, x)),
{
    let nodes = seq![head] + rest;
    if nodes_contain(nodes, x) {
        let k = choose|k: int| 0 <= k < nodes.len() && nodes[k] == x;
        if k > 0 {
            assert(rest[k - 1] == x);
        }
    }
    if head == x {
        assert(nodes[0] == x);
    }
    if nodes_contain(rest, x) {
        let k = choose|k: int| 0 <= k < rest.len() && rest[k] == x;
        assert(nodes[k + 1] == x);
    }
}

/// Four zero bytes decode to the unallocated pointer value.
proof fn lemma_zero_entry()
    ensures
        forall|b0: u8, b1: u8, b2: u8, b3: u8|
            b0 == 0 && b1 == 0 && b2 == 0 && b3 == 0 ==> #[trigger] crate::codec::le32(
                b0,
                b1,
                b2,
                b3,
            ) == 0,
{
    assert(forall|b0: u8, b1: u8, b2: u8, b3: u8|
        b0 == 0 && b1 == 0 && b2 == 0 && b3 == 0 ==> #[trigger] ((b0 as u32) | ((b1 as u32) << 8)
            | ((b2 as u32) << 16) | ((b3 as u32) << 24)) == 0) by (bit_vector);
}

/// The device bytes left alone by a write-mode walk below the entry at
/// (`parent`, `idx`): every byte of a block that was not free in the bitmap,
/// is not a pointer block of the walked tree and is not the parent itself,
/// and every byte of the parent block outside the four entry bytes.
pub open spec fn walk_preserves(
    dev_old: Seq<u8>,
    dev_new: Seq<u8>,
    bm_old: Seq<bool>,
    touched: Seq<u32>,
    parent: u32,
    entry_off: int,
) -> bool {
    &&& forall|i: int|
        0 <= i < dev_old.len() && i / (BLOCKSIZE as int) != parent as int && !(0 <= i / (BLOCKSIZE
            as int) < bm_old.len() && !bm_old[i / (BLOCKSIZE as int)]) && !nodes_contain(
            touched,
            i / (BLOCKSIZE as int),
        ) ==> dev_new[i] == dev_old[i]
    &&& forall|i: int|
        0 <= i < dev_old.len() && i / (BLOCKSIZE as int) == parent as int && !(entry_off <= i
            < entry_off + 4) ==> dev_new[i] == dev_old[i]
}

/// Walks the pointer tree below the entry at (`parent`, `idx`) in write
/// mode: any slot encountered as zero is lazily allocated from the bitmap,
/// zero-initialized if it is a pointer block, and linked into its parent slot
/// before its own entries are written — so a crash never leaves a child
/// referenced by a stale parent slot. Returns the data block at index `rem`
/// of the tree.
#[verifier::rlimit(100)]
#[verifier::spinoff_prover]
fn descend(
    manager: &mut BlockManager,
    bitmap: &mut Bitmap,
    parent: u32,
    idx: u64,
    d: u32,
    rem: u64,
) -> (r: Result<u32, FsError>)
    requires
        old(bitmap).wf(),
        old(bitmap)@.len() >= 1,
        old(bitmap)@[0],
        old(bitmap)@.len() * (BLOCKSIZE as int) <= usize::MAX,
        block_in_device(old(manager)@, parent as int),
        (parent as int) < old(bitmap)@.len(),
        old(bitmap)@[parent as int],
        idx < 512,
        d <= 2,
        rem < pow_entries(d as nat),
        chain_ok(
            old(manager)@,
            old(bitmap)@,
            ptr_entry(old(manager)@, parent, idx as int),
            d as nat,
            rem as int,
        ),
        !nodes_contain(
            chain_nodes(
                old(manager)@,
                ptr_entry(old(manager)@, parent, idx as int),
                d as nat,
                rem as int,
            ),
            parent as int,
        ),
    ensures
        final(bitmap).wf(),
        final(bitmap)@.len() == old(bitmap)@.len(),
        forall|j: int| 0 <= j < old(bitmap)@.len() && old(bitmap)@[j] ==> final(bitmap)@[j],
        final(manager)@.len() >= old(manager)@.len(),
        walk_preserves(
            old(manager)@,
            final(manager)@,
            old(bitmap)@,
            chain_nodes(
                old(manager)@,
                ptr_entry(old(manager)@, parent, idx as int),
                d as nat,
                rem as int,
            ),
            parent,
            parent as int * (BLOCKSIZE as int) + 4 * idx,
        ),
        match r {
            Ok(b) => {
                &&& b != 0
                &&& ptr_entry(final(manager)@, parent, idx as int) != 0
                &&& resolve_chain(
                    final(manager)@,
                    ptr_entry(final(manager)@, parent, idx as int),
                    d as nat,
                    rem as int,
                ) == b
                &&& chain_in_bounds(
                    final(manager)@,
                    ptr_entry(final(manager)@, parent, idx as int),
                    d as nat,
                    rem as int,
                )
                &&& count_free(final(bitmap)@) == count_free(old(bitmap)@) - missing_count(
                    old(manager)@,
                    ptr_entry(old(manager)@, parent, idx as int),
                    d as nat,
                    rem as int,
                )
            },
            Err(e) => e == FsError::CapacityExhausted && count_free(final(bitmap)@) == 0,
        },
        count_free(old(bitmap)@) >= missing_count(
            old(manager)@,
            ptr_entry(old(manager)@, parent, idx as int),
            d as nat,
            rem as int,
        ) ==> r is Ok,
        r is Ok && missing_count(
            old(manager)@,
            ptr_entry(old(manager)@, parent, idx as int),
            d as nat,
            rem as int,
        ) == 0 ==> final(manager)@ == old(manager)@ && final(bitmap)@ == old(bitmap)@,
    decreases d,
{
    let ghost dev0 = old(manager)@;
    let ghost bm0 = old(bitmap)@;
    let ghost bs = BLOCKSIZE as int;
    let ghost entry0 = ptr_entry(dev0, parent, idx as int);
    let ghost touched = chain_nodes(dev0, entry0, d as nat, rem as int);
    let device_len = manager.device_len();
    let e = match read_ptr_entry(manager, parent, idx) {
        Ok(e) => e,
        Err(_) => {
            proof {
                assert(false);
            }
            return Err(FsError::ShortRead);
        },
    };
    let cur: u32;
    if e == 0 {
        let b = match bitmap.allocate() {
            Ok(b) => b,
            Err(_) => {
                return Err(FsError::CapacityExhausted);
            },
        };
        proof {
            let bml = bm0.len() as int;
            assert((b as int + 1) * bs <= bml * bs) by (nonlinear_arith)
                requires
                    (b as int) < bml,
                    bs > 0,
            ;
        }
        if d > 0 {
            match manager.zero_block(b as usize) {
                Ok(_) => {},
                Err(_) => {
                    proof {
                        assert(false);
                    }
                },
            }
        }
        match write_ptr_entry(manager, parent, idx, b) {
            Ok(_) => {},
            Err(_) => {
                proof {
                    assert(false);
                }
            },
        }
        cur = b;
        proof {
            lemma_zero_entry();
            if d > 0 {
                assert forall|t: int| 0 <= t < 512 implies ptr_entry(manager@, cur, t) == 0 by {
                    assert(manager@[cur as int * bs + 4 * t] == 0u8);
                    assert(manager@[cur as int * bs + 4 * t + 1] == 0u8);
                    assert(manager@[cur as int * bs + 4 * t + 2] == 0u8);
                    assert(manager@[cur as int * bs + 4 * t + 3] == 0u8);
                }
            }
        }
    } else {
        cur = e;
    }
    let ghost dev3 = manager@;
    let ghost bm3 = bitmap@;
    if d == 0 {
        proof {
            assert(ptr_entry(dev3, parent, idx as int) == cur);
            assert forall|i: int|
                0 <= i < dev0.len() && i / bs != parent as int && !(0 <= i / bs < bm0.len()
                    && !bm0[i / bs]) && !nodes_contain(touched, i / bs) implies dev3[i]
                == dev0[i] by {
                lemma_block_of(i, i / bs);
                if e == 0 {
                    assert(i / bs != cur as int);
                }
            }
            assert forall|i: int|
                0 <= i < dev0.len() && i / bs == parent as int && !(parent as int * bs + 4 * idx
                    <= i < parent as int * bs + 4 * idx + 4) implies dev3[i] == dev0[i] by {
                lemma_block_of(i, parent as int);
                if e == 0 {
                    assert(i / bs != cur as int);
                    lemma_block_of(i, cur as int);
                }
            }
        }
        return Ok(cur);
    }
    let stride = stride_for(d);
    let idx2 = rem / stride;
    let rem2 = rem % stride;
    proof {
        assert(pow_entries(d as nat) == 512 * pow_entries((d - 1) as nat));
        assert(idx2 < 512) by (nonlinear_arith)
            requires
                idx2 == (rem as int) / (stride as int),
                rem < 512 * (stride as int),
                stride >= 1,
        ;
        assert(rem2 < stride);
        // the subtree below `cur` is sound, and `cur` is not inside it
        if e == 0 {
            assert(ptr_entry(dev3, cur, idx2 as int) == 0);
            assert(chain_nodes(dev3, ptr_entry(dev3, cur, idx2 as int), (d - 1) as nat, rem2 as int)
                =~= Seq::<u32>::empty());
        } else {
            assert(dev3 == dev0);
            assert(chain_ok(dev0, bm0, e, d as nat, rem as int));
            lemma_nodes_contain_cons(
                e,
                chain_nodes(dev0, ptr_entry(dev0, e, idx2 as int), (d - 1) as nat, rem2 as int),
                parent as int,
            );
        }
        assert(block_in_device(dev3, cur as int));
        assert((cur as int) < bm3.len() && bm3[cur as int]);
    }
    let ghost child_touched = chain_nodes(
        dev3,
        ptr_entry(dev3, cur, idx2 as int),
        (d - 1) as nat,
        rem2 as int,
    );
    let res = descend(manager, bitmap, cur, idx2, d - 1, rem2);
    proof {
        let entry_new = ptr_entry(manager@, parent, idx as int);
        // the child never rewrites the parent's entry bytes
        assert forall|i: int|
            parent as int * bs <= i < parent as int * bs + bs && i < dev3.len() implies manager@[i]
            == dev3[i] by {
            lemma_block_of(i, parent as int);
            lemma_block_of(i, i / bs);
            assert(i / bs == parent as int);
            assert(parent != cur);
            if e == 0 {
                assert(!(0 <= i / bs < bm3.len() && !bm3[i / bs]));
            }
            if e != 0 {
                lemma_nodes_contain_cons(e, child_touched, parent as int);
            }
            assert(!nodes_contain(child_touched, parent as int));
        }
        assert(block_in_device(dev3, parent as int));
        assert(parent as int * bs + 4 * idx + 4 <= (parent as int + 1) * bs) by (nonlinear_arith)
            requires
                idx < 512,
                bs == 2048,
        ;
        assert(entry_new == ptr_entry(dev3, parent, idx as int));
        assert(entry_new == cur);
        // the parent's frame follows from our own writes plus the child's
        assert forall|i: int|
            0 <= i < dev0.len() && i / bs != parent as int && !(0 <= i / bs < bm0.len() && !bm0[i
                / bs]) && !nodes_contain(touched, i / bs) implies manager@[i] == dev0[i] by {
            lemma_block_of(i, i / bs);
            if e == 0 {
                assert(i / bs != cur as int);
                assert(dev3[i] == dev0[i]);
            } else {
                lemma_nodes_contain_cons(e, child_touched, i / bs);
                assert(dev3[i] == dev0[i]);
            }
            assert(!(0 <= i / bs < bm3.len() && !bm3[i / bs]));
            if e == 0 {
                assert(!nodes_contain(child_touched, i / bs));
            } else {
                assert(!nodes_contain(child_touched, i / bs));
            }
            assert(i / bs != cur as int || i >= dev3.len());
            if i / bs != cur as int {
                assert(manager@[i] == dev3[i]);
            }
        }
        assert forall|i: int|
            0 <= i < dev0.len() && i / bs == parent as int && !(parent as int * bs + 4 * idx <= i
                < parent as int * bs + 4 * idx + 4) implies manager@[i] == dev0[i] by {
            lemma_block_of(i, parent as int);
            if e == 0 {
                lemma_block_of(i, cur as int);
                assert(dev3[i] == dev0[i]);
            }
        }
        if res is Ok {
            assert(resolve_chain(manager@, entry_new, d as nat, rem as int) == resolve_chain(
                manager@,
                ptr_entry(manager@, cur, idx2 as int),
                (d - 1) as nat,
                rem2 as int,
            ));
            assert(chain_in_bounds(manager@, entry_new, d as nat, rem as int));
            if e == 0 {
                assert(missing_count(dev0, entry0, d as nat, rem as int) == d + 1);
                assert(missing_count(dev3, ptr_entry(dev3, cur, idx2 as int), (d - 1) as nat, rem2 as int) == d);
                assert(count_free(bm3) == count_free(bm0) - 1);
            } else {
                assert(missing_count(dev0, entry0, d as nat, rem as int) == missing_count(
                    dev3,
                    ptr_entry(dev3, cur, idx2 as int),
                    (d - 1) as nat,
                    rem2 as int,
                ));
            }
        }
        if count_free(bm0) >= missing_count(dev0, entry0, d as nat, rem as int) {
            if e == 0 {
                assert(count_free(bm3) >= missing_count(
                    dev3,
                    ptr_entry(dev3, cur, idx2 as int),
                    (d - 1) as nat,
                    rem2 as int,
                ));
            }
            assert(res is Ok);
        }
    }
    res
}

/// Resolves logical block index `l` of the inode in read mode: returns the
/// physical block number holding that data, or 0 when the file has a hole at
/// `l`. Direct indexes are answered from the inode alone with no block
/// reads; out-of-range indexes fail; a pointer block past the end of the
/// device fails with a short read.
pub fn resolve_read(inode: &Inode, manager: &BlockManager, l: u64) -> (r: Result<u32, FsError>)
    requires
        inode.wf(),
    ensures
        l > MAX_LOGICAL_INDEX ==> r == Err::<u32, FsError>(FsError::OutOfRange),
        l <= MAX_LOGICAL_INDEX ==> match r {
            Ok(b) => resolve_in_bounds(manager@, *inode, l as int) && b == resolve_spec(
                manager@,
                *inode,
                l as int,
            ),
            Err(e) => e == FsError::ShortRead && !resolve_in_bounds(manager@, *inode, l as int),
        },
        l < 12 ==> r == Ok::<u32, FsError>(inode.direct_pointers@[l as int]),
{
    proof {
        assert(pow_entries(0) == 1);
        assert(pow_entries(1) == 512 * pow_entries(0));
        assert(pow_entries(2) == 512 * pow_entries(1));
        assert(pow_entries(3) == 512 * pow_entries(2));
    }
    if l < 12 {
        return Ok(inode.direct_pointers[l as usize]);
    }
    if l < 12 + 512 {
        resolve_chain_read(manager, inode.indirect_pointers[0], 1, l - 12)
    } else if l < 12 + 512 + 512 * 512 {
        resolve_chain_read(manager, inode.indirect_pointers[1], 2, l - 12 - 512)
    } else if l <= MAX_LOGICAL_INDEX {
        resolve_chain_read(manager, inode.indirect_pointers[2], 3, l - 12 - 512 - 512 * 512)
    } else {
        Err(FsError::OutOfRange)
    }
}

/// Resolves logical block index `l` of the inode in write mode: returns the
/// physical block holding that data, allocating the data block and any
/// missing intermediate pointer blocks from the bitmap on demand and linking
/// each freshly zeroed pointer block into its parent slot before its own
/// entries are written. The bitmap is mutated in memory; persisting it and
/// the mirrored superblock counter afterwards is the caller's transaction
/// step.
#[verifier::rlimit(100)]
#[verifier::spinoff_prover]
pub fn resolve_write(inode: &mut Inode, manager: &mut BlockManager, bitmap: &mut Bitmap, l: u64) -> (r: Result<u32, FsError>)
    requires
        old(inode).wf(),
        old(bitmap).wf(),
        old(bitmap)@.len() >= 1,
        old(bitmap)@[0],
        old(bitmap)@.len() * (BLOCKSIZE as int) <= usize::MAX,
        resolve_chain_ok(old(manager)@, old(bitmap)@, *old(inode), l as int),
    ensures
        final(inode).wf(),
        final(bitmap).wf(),
        final(bitmap)@.len() == old(bitmap)@.len(),
        forall|j: int| 0 <= j < old(bitmap)@.len() && old(bitmap)@[j] ==> final(bitmap)@[j],
        final(manager)@.len() >= old(manager)@.len(),
        final(inode).inode_type == old(inode).inode_type,
        final(inode).permissions == old(inode).permissions,
        final(inode).a_time == old(inode).a_time,
        final(inode).m_time == old(inode).m_time,
        final(inode).c_time == old(inode).c_time,
        final(inode).n_links == old(inode).n_links,
        final(inode).size_in_logical_bytes == old(inode).size_in_logical_bytes,
        final(inode).num_of_occupied_blocks == old(inode).num_of_occupied_blocks,
        match r {
            Ok(b) => {
                &&& b != 0
                &&& l <= MAX_LOGICAL_INDEX
                &&& resolve_in_bounds(final(manager)@, *final(inode), l as int)
                &&& resolve_spec(final(manager)@, *final(inode), l as int) == b
                &&& count_free(final(bitmap)@) == count_free(old(bitmap)@) - resolve_missing(
                    old(manager)@,
                    *old(inode),
                    l as int,
                )
                &&& (l < 12 ==> final(inode).indirect_pointers@ == old(inode).indirect_pointers@
                    && final(inode).direct_pointers@ == old(inode).direct_pointers@.update(
                    l as int,
                    b,
                ))
                &&& (resolve_missing(old(manager)@, *old(inode), l as int) == 0 ==> {
                    &&& final(manager)@ == old(manager)@
                    &&& final(bitmap)@ == old(bitmap)@
                    &&& b == resolve_spec(old(manager)@, *old(inode), l as int)
                })
                &&& (l >= 12 ==> final(inode).direct_pointers@ == old(inode).direct_pointers@
                    && (exists|v: u32|
                    final(inode).indirect_pointers@ == old(inode).indirect_pointers@.update(
                        slot_of(l as int),
                        v,
                    )) && (old(inode).indirect_pointers@[slot_of(l as int)] != 0
                    ==> final(inode).indirect_pointers@ == old(inode).indirect_pointers@))
            },
            Err(e) => {
                &&& (e == FsError::OutOfRange <==> l > MAX_LOGICAL_INDEX)
                &&& (e == FsError::OutOfRange ==> {
                    &&& final(manager)@ == old(manager)@
                    &&& final(bitmap)@ == old(bitmap)@
                    &&& final(inode).direct_pointers@ == old(inode).direct_pointers@
                    &&& final(inode).indirect_pointers@ == old(inode).indirect_pointers@
                })
                &&& (e == FsError::CapacityExhausted ==> count_free(final(bitmap)@) == 0)
                &&& (e == FsError::OutOfRange || e == FsError::CapacityExhausted)
            },
        },
        l <= MAX_LOGICAL_INDEX && count_free(old(bitmap)@) >= resolve_missing(
            old(manager)@,
            *old(inode),
            l as int,
        ) ==> r is Ok,
        forall|i: int|
            0 <= i < old(manager)@.len() && !(0 <= i / (BLOCKSIZE as int) < old(bitmap)@.len()
                && !old(bitmap)@[i / (BLOCKSIZE as int)]) && !nodes_contain(
                resolve_nodes(old(manager)@, *old(inode), l as int),
                i / (BLOCKSIZE as int),
            ) ==> final(manager)@[i] == old(manager)@[i],
{
    proof {
        assert(pow_entries(0) == 1);
        assert(pow_entries(1) == 512 * pow_entries(0));
        assert(pow_entries(2) == 512 * pow_entries(1));
        assert(pow_entries(3) == 512 * pow_entries(2));
    }
    let ghost dev0 = old(manager)@;
    let ghost bm0 = old(bitmap)@;
    let ghost bs = BLOCKSIZE as int;
    if l > MAX_LOGICAL_INDEX {
        return Err(FsError::OutOfRange);
    }
    if l < 12 {
        let slot = inode.direct_pointers[l as usize];
        if slot != 0 {
            return Ok(slot);
        }
        let b = match bitmap.allocate() {
            Ok(b) => b,
            Err(_) => {
                return Err(FsError::CapacityExhausted);
            },
        };
        inode.direct_pointers.set(l as usize, b);
        return Ok(b);
    }
    let (s, depth, rem): (usize, u32, u64) = if l < 12 + 512 {
        (0, 1, l - 12)
    } else if l < 12 + 512 + 512 * 512 {
        (1, 2, l - 12 - 512)
    } else {
        (2, 3, l - 12 - 512 - 512 * 512)
    };
    let root0 = inode.indirect_pointers[s];
    let root: u32;
    if root0 == 0 {
        let b = match bitmap.allocate() {
            Ok(b) => b,
            Err(_) => {
                return Err(FsError::CapacityExhausted);
            },
        };
        proof {
            let bml = bm0.len() as int;
            assert((b as int + 1) * bs <= bml * bs) by (nonlinear_arith)
                requires
                    (b as int) < bml,
                    bs > 0,
            ;
        }
        match manager.zero_block(b as usize) {
            Ok(_) => {},
            Err(_) => {
                proof {
                    assert(false);
                }
            },
        }
        inode.indirect_pointers.set(s, b);
        root = b;
        proof {
            lemma_zero_entry();
            assert forall|t: int| 0 <= t < 512 implies ptr_entry(manager@, root, t) == 0 by {
                assert(manager@[root as int * bs + 4 * t] == 0u8);
                assert(manager@[root as int * bs + 4 * t + 1] == 0u8);
                assert(manager@[root as int * bs + 4 * t + 2] == 0u8);
                assert(manager@[root as int * bs + 4 * t + 3] == 0u8);
            }
        }
    } else {
        root = root0;
    }
    let ghost dev1 = manager@;
    let ghost bm1 = bitmap@;
    let stride = stride_for(depth);
    let idx0 = rem / stride;
    let rem0 = rem % stride;
    proof {
        assert(pow_entries(depth as nat) == 512 * pow_entries((depth - 1) as nat));
        assert(idx0 < 512) by (nonlinear_arith)
            requires
                idx0 == (rem as int) / (stride as int),
                rem < 512 * (stride as int),
                stride >= 1,
        ;
        assert(rem0 < stride);
        if root0 == 0 {
            assert(ptr_entry(dev1, root, idx0 as int) == 0);
            assert(chain_nodes(dev1, ptr_entry(dev1, root, idx0 as int), (depth - 1) as nat, rem0 as int)
                =~= Seq::<u32>::empty());
        } else {
            assert(chain_ok(dev0, bm0, root, depth as nat, rem as int));
            assert(chain_ok(dev1, bm1, ptr_entry(dev1, root, idx0 as int), (depth - 1) as nat, rem0 as int));
        }
        assert(block_in_device(dev1, root as int));
        assert((root as int) < bm1.len() && bm1[root as int]);
    }
    let res_r = descend(manager, bitmap, root, idx0, depth - 1, rem0);
    proof {
        let child_nodes = chain_nodes(
            dev1,
            ptr_entry(dev1, root, idx0 as int),
            (depth - 1) as nat,
            rem0 as int,
        );
        assert forall|i: int|
            0 <= i < dev0.len() && !(0 <= i / bs < bm0.len() && !bm0[i / bs]) && !nodes_contain(
                resolve_nodes(dev0, *old(inode), l as int),
                i / bs,
            ) implies manager@[i] == dev0[i] by {
            lemma_block_of(i, i / bs);
            if root0 == 0 {
                assert(i / bs != root as int);
                lemma_block_of(i, root as int);
                assert(dev1[i] == dev0[i]);
                assert(child_nodes =~= Seq::<u32>::empty());
            } else {
                assert(dev1[i] == dev0[i]);
                lemma_nodes_contain_cons(root, child_nodes, i / bs);
                assert(i / bs != root as int);
            }
            assert(!(0 <= i / bs < bm1.len() && !bm1[i / bs]));
            assert(!nodes_contain(child_nodes, i / bs));
            assert(manager@[i] == dev1[i]);
        }
    }
    let res = match res_r {
        Ok(b) => b,
        Err(e) => {
            return Err(e);
        },
    };
    proof {
        let entry_new = ptr_entry(manager@, root, idx0 as int);
        assert(resolve_chain(manager@, root, depth as nat, rem as int) == resolve_chain(
            manager@,
            entry_new,
            (depth - 1) as nat,
            rem0 as int,
        ));
        assert(chain_in_bounds(manager@, root, depth as nat, rem as int));
        assert(inode.indirect_pointers@[s as int] == root);
        if root0 == 0 {
            assert(missing_count(dev0, root0, depth as nat, rem as int) == depth + 1);
            assert(missing_count(dev1, ptr_entry(dev1, root, idx0 as int), (depth - 1) as nat, rem0 as int)
                == depth);
            assert(count_free(bm1) == count_free(bm0) - 1);
        } else {
            assert(dev1 == dev0 && bm1 == bm0);
            assert(missing_count(dev0, root0, depth as nat, rem as int) == missing_count(
                dev1,
                ptr_entry(dev1, root, idx0 as int),
                (depth - 1) as nat,
                rem0 as int,
            ));
        }
        if root0 != 0 {
            assert(inode.indirect_pointers@ =~= old(inode).indirect_pointers@);
        }
        assert(inode.indirect_pointers@ =~= old(inode).indirect_pointers@.update(s as int, root));
        assert(slot_of(l as int) == s as int);
        assert(inode.indirect_pointers@ == old(inode).indirect_pointers@.update(
            slot_of(l as int),
            root,
        ));
    }
    Ok(res)
}

/// Law: a write-mode resolve of the first singly-indirect index on an inode
/// whose singly-indirect slot is still empty must allocate exactly two
/// blocks: one new pointer block, linked in before the data block's entry is
/// written, and then the data block itself.
pub proof fn lemma_first_indirect_write_allocates_one_pointer_block(dev: Seq<u8>, inode: Inode)
    requires
        inode.wf(),
        inode.indirect_pointers@[0] == 0,
    ensures
        resolve_missing(dev, inode, 12) == 2,
{
}

/// The blocks of the pointer tree below one slot, children first, the root
/// last — exactly the blocks a depth-first delete walk frees.
pub open spec fn tree_list(dev: Seq<u8>, root: u32, depth: nat) -> Seq<u32>
    decreases depth, 513int,
{
    if root == 0 {
        Seq::empty()
    } else if depth == 0 {
        seq![root]
    } else {
        entries_list(dev, root, depth, 512) + seq![root]
    }
}

/// The blocks of the subtrees below the first `n` entries of a pointer block.
pub open spec fn entries_list(dev: Seq<u8>, root: u32, depth: nat, n: int) -> Seq<u32>
    decreases depth, n,
{
    if depth == 0 || n <= 0 {
        Seq::empty()
    } else {
        entries_list(dev, root, depth, n - 1) + tree_list(
            dev,
            ptr_entry(dev, root, n - 1),
            (depth - 1) as nat,
        )
    }
}

/// Whether every pointer block of the tree below one slot lies within the
/// device, so that a walk can read it.
pub open spec fn tree_in_device(dev: Seq<u8>, root: u32, depth: nat) -> bool
    decreases depth, 513int,
{
    root == 0 || depth == 0 || (block_in_device(dev, root as int) && entries_in_device(
        dev,
        root,
        depth,
        512,
    ))
}

/// In-device condition for the subtrees below the first `n` entries.
pub open spec fn entries_in_device(dev: Seq<u8>, root: u32, depth: nat, n: int) -> bool
    decreases depth, n,
{
    depth == 0 || n <= 0 || (entries_in_device(dev, root, depth, n - 1) && tree_in_device(
        dev,
        ptr_entry(dev, root, n - 1),
        (depth - 1) as nat,
    ))
}

/// Whether every listed block is a valid, currently allocated block number.
pub open spec fn blocks_allocated(bm: Seq<bool>, list: Seq<u32>) -> bool {
    forall|k: int|
        0 <= k < list.len() ==> 0 < #[trigger] list[k] && (list[k] as int) < bm.len() && bm[list[k] as int]
}

/// Whether no block appears in both lists.
pub open spec fn lists_disjoint(a: Seq<u32>, b: Seq<u32>) -> bool {
    forall|x: int| !(nodes_contain(a, x) && #[trigger] nodes_contain(b, x))
}

/// Membership in a concatenation is membership in either part.
proof fn lemma_contain_concat(a: Seq<u32>, b: Seq<u32>, x: int)
    ensures
        nodes_contain(a + b, x) <==> (nodes_contain(a, x) || nodes_contain(b, x)),
{
    if nodes_contain(a + b, x) {
        let k = choose|k: int| 0 <= k < (a + b).len() && (a + b)[k] == x;
        if k >= a.len() {
            assert(b[k - a.len()] == x);
        }
    }
    if nodes_contain(a, x) {
        let k = choose|k: int| 0 <= k < a.len() && a[k] == x;
        assert((a + b)[k] == x);
    }
    if nodes_contain(b, x) {
        let k = choose|k: int| 0 <= k < b.len() && b[k] == x;
        assert((a + b)[a.len() + k] == x);
    }
}

/// A singleton list holds exactly its one block.
proof fn lemma_contain_singleton(v: u32, x: int)
    ensures
        nodes_contain(seq![v], x) <==> v == x,
{
    if nodes_contain(seq![v], x) {
        let k = choose|k: int| 0 <= k < 1 && seq![v][k] == x;
    }
    if v == x {
        assert(seq![v][0] == x);
    }
}

/// A duplicate-free concatenation has duplicate-free, disjoint parts.
proof fn lemma_no_dup_concat(a: Seq<u32>, b: Seq<u32>)
    requires
        (a + b).no_duplicates(),
    ensures
        a.no_duplicates(),
        b.no_duplicates(),
        lists_disjoint(a, b),
{
    assert forall|i: int, j: int|
        0 <= i < a.len() && 0 <= j < a.len() && i != j implies a[i] != a[j] by {
        assert((a + b)[i] == a[i] && (a + b)[j] == a[j]);
    }
    assert forall|i: int, j: int|
        0 <= i < b.len() && 0 <= j < b.len() && i != j implies b[i] != b[j] by {
        assert((a + b)[a.len() + i] == b[i] && (a + b)[a.len() + j] == b[j]);
    }
    assert forall|x: int| !(nodes_contain(a, x) && #[trigger] nodes_contain(b, x)) by {
        if nodes_contain(a, x) && nodes_contain(b, x) {
            let i = choose|i: int| 0 <= i < a.len() && a[i] == x;
            let j = choose|j: int| 0 <= j < b.len() && b[j] == x;
            assert((a + b)[i] == x && (a + b)[a.len() + j] == x);
        }
    }
}

/// In-device for the first `n` entries carries down to any shorter prefix.
proof fn lemma_entries_in_device_prefix(dev: Seq<u8>, root: u32, depth: nat, m: int, n: int)
    requires
        0 <= m <= n,
        entries_in_device(dev, root, depth, n),
    ensures
        entries_in_device(dev, root, depth, m),
    decreases n,
{
    if depth != 0 && m < n {
        lemma_entries_in_device_prefix(dev, root, depth, m, n - 1);
    }
}

/// A duplicate-free entry list stays duplicate-free on any shorter prefix.
proof fn lemma_entries_list_no_dup_prefix(dev: Seq<u8>, root: u32, depth: nat, m: int, n: int)
    requires
        0 <= m <= n,
        entries_list(dev, root, depth, n).no_duplicates(),
    ensures
        entries_list(dev, root, depth, m).no_duplicates(),
    decreases n,
{
    if depth != 0 && m < n {
        lemma_no_dup_concat(
            entries_list(dev, root, depth, n - 1),
            tree_list(dev, ptr_entry(dev, root, n - 1), (depth - 1) as nat),
        );
        lemma_entries_list_no_dup_prefix(dev, root, depth, m, n - 1);
    }
}

/// A block in a shorter entry-list prefix is in any longer one.
proof fn lemma_entries_list_membership(dev: Seq<u8>, root: u32, depth: nat, m: int, n: int, x: int)
    requires
        0 <= m <= n,
        nodes_contain(entries_list(dev, root, depth, m), x),
    ensures
        nodes_contain(entries_list(dev, root, depth, n), x),
    decreases n,
{
    if depth != 0 && m < n {
        lemma_entries_list_membership(dev, root, depth, m, n - 1, x);
        lemma_contain_concat(
            entries_list(dev, root, depth, n - 1),
            tree_list(dev, ptr_entry(dev, root, n - 1), (depth - 1) as nat),
            x,
        );
    }
}

/// Frees every block of the pointer tree below one slot, depth-first: data
/// blocks first, then the pointer blocks that contained their references.
/// Fails loudly — a double free or an out-of-range block number marks a
/// corrupt tree — and may then leave the walk half done: crash-atomicity
/// across multiple frees is not promised, only detectability.
#[verifier::rlimit(100)]
#[verifier::spinoff_prover]
fn release_tree(manager: &BlockManager, bitmap: &mut Bitmap, root: u32, depth: u32) -> (r: Result<
    (),
    FsError,
>)
    requires
        old(bitmap).wf(),
        depth <= 3,
    ensures
        final(bitmap).wf(),
        final(bitmap)@.len() == old(bitmap)@.len(),
        forall|j: int| 0 <= j < old(bitmap)@.len() && !old(bitmap)@[j] ==> !final(bitmap)@[j],
        match r {
            Ok(_) => {
                &&& forall|j: int|
                    0 <= j < old(bitmap)@.len() ==> final(bitmap)@[j] == (old(bitmap)@[j]
                        && !nodes_contain(tree_list(manager@, root, depth as nat), j))
                &&& count_free(final(bitmap)@) == count_free(old(bitmap)@) + tree_list(
                    manager@,
                    root,
                    depth as nat,
                ).len()
            },
            Err(e) => {
                &&& (e == FsError::DoubleFree || e == FsError::OutOfRange
                    || e == FsError::ShortRead)
                &&& !(tree_in_device(manager@, root, depth as nat) && blocks_allocated(
                    old(bitmap)@,
                    tree_list(manager@, root, depth as nat),
                ) && tree_list(manager@, root, depth as nat).no_duplicates())
            },
        },
        tree_in_device(manager@, root, depth as nat) && blocks_allocated(
            old(bitmap)@,
            tree_list(manager@, root, depth as nat),
        ) && tree_list(manager@, root, depth as nat).no_duplicates() ==> r is Ok,
    decreases depth,
{
    let ghost bm0 = old(bitmap)@;
    let ghost dev = manager@;
    let ghost list = tree_list(dev, root, depth as nat);
    if root == 0 {
        return Ok(());
    }
    if depth == 0 {
        proof {
            assert(list == seq![root]);
            lemma_contain_singleton(root, root as int);
        }
        match bitmap.free(root) {
            Ok(_) => {
                proof {
                    assert forall|j: int| 0 <= j < bm0.len() implies bitmap@[j] == (bm0[j]
                        && !nodes_contain(list, j)) by {
                        lemma_contain_singleton(root, j);
                    }
                }
                return Ok(());
            },
            Err(err) => {
                proof {
                    if blocks_allocated(bm0, list) {
                        assert(list[0] == root);
                        assert(false);
                    }
                }
                return Err(err);
            },
        }
    }
    let ghost full_entries = entries_list(dev, root, depth as nat, 512);
    let mut idx: u64 = 0;
    while idx < 512
        invariant
            idx <= 512,
            1 <= depth <= 3,
            root != 0,
            bitmap.wf(),
            bitmap@.len() == bm0.len(),
            bm0 == old(bitmap)@,
            dev == manager@,
            full_entries == entries_list(dev, root, depth as nat, 512),
            list == tree_list(dev, root, depth as nat),
            forall|j: int|
                0 <= j < bm0.len() ==> bitmap@[j] == (bm0[j] && !nodes_contain(
                    entries_list(dev, root, depth as nat, idx as int),
                    j,
                )),
            count_free(bitmap@) == count_free(bm0) + entries_list(
                dev,
                root,
                depth as nat,
                idx as int,
            ).len(),
        decreases 512 - idx,
    {
        let e = match read_ptr_entry(manager, root, idx) {
            Ok(e) => e,
            Err(err) => {
                return Err(err);
            },
        };
        let ghost prefix = entries_list(dev, root, depth as nat, idx as int);
        let ghost child = tree_list(dev, e, (depth - 1) as nat);
        proof {
            assert(entries_list(dev, root, depth as nat, idx as int + 1) == prefix + child);
        }
        let ghost bm_before = bitmap@;
        match release_tree(manager, bitmap, e, depth - 1) {
            Ok(_) => {},
            Err(err) => {
                proof {
                    if tree_in_device(dev, root, depth as nat) && blocks_allocated(bm0, list)
                        && list.no_duplicates() {
                        lemma_entries_in_device_prefix(
                            dev,
                            root,
                            depth as nat,
                            idx as int + 1,
                            512,
                        );
                        lemma_no_dup_concat(full_entries, seq![root]);
                        lemma_entries_list_no_dup_prefix(
                            dev,
                            root,
                            depth as nat,
                            idx as int + 1,
                            512,
                        );
                        lemma_no_dup_concat(prefix, child);
                        assert forall|k: int| 0 <= k < child.len() implies 0 < #[trigger] child[k]
                            && (child[k] as int) < bm_before.len() && bm_before[child[k] as int] by {
                            let x = child[k] as int;
                            assert(nodes_contain(child, x));
                            lemma_contain_concat(prefix, child, x);
                            lemma_entries_list_membership(
                                dev,
                                root,
                                depth as nat,
                                idx as int + 1,
                                512,
                                x,
                            );
                            lemma_contain_concat(full_entries, seq![root], x);
                            let i = choose|i: int| 0 <= i < list.len() && list[i] == x;
                        }
                        assert(false);
                    }
                }
                return Err(err);
            },
        }
        proof {
            assert forall|j: int| 0 <= j < bm0.len() implies bitmap@[j] == (bm0[j]
                && !nodes_contain(entries_list(dev, root, depth as nat, idx as int + 1), j)) by {
                lemma_contain_concat(prefix, child, j);
            }
        }
        idx += 1;
    }
    proof {
        assert(list == full_entries + seq![root]);
    }
    match bitmap.free(root) {
        Ok(_) => {
            proof {
                assert forall|j: int| 0 <= j < bm0.len() implies bitmap@[j] == (bm0[j]
                    && !nodes_contain(list, j)) by {
                    lemma_contain_concat(full_entries, seq![root], j);
                    lemma_contain_singleton(root, j);
                }
            }
            Ok(())
        },
        Err(err) => {
            proof {
                if blocks_allocated(bm0, list) && list.no_duplicates() {
                    lemma_no_dup_concat(full_entries, seq![root]);
                    assert(list[full_entries.len() as int] == root);
                    lemma_contain_singleton(root, root as int);
                    assert(!nodes_contain(full_entries, root as int));
                    assert(false);
                }
            }
            Err(err)
        },
    }
}

/// The nonzero direct pointers among the first `k` slots, in slot order.
pub open spec fn direct_list(inode: Inode, k: int) -> Seq<u32>
    decreases k,
{
    if k <= 0 {
        Seq::empty()
    } else if inode.direct_pointers@[k - 1] == 0 {
        direct_list(inode, k - 1)
    } else {
        direct_list(inode, k - 1) + seq![inode.direct_pointers@[k - 1]]
    }
}

/// A block in a shorter direct-pointer prefix is in any longer one.
proof fn lemma_direct_list_membership(inode: Inode, m: int, n: int, x: int)
    requires
        0 <= m <= n,
        nodes_contain(direct_list(inode, m), x),
    ensures
        nodes_contain(direct_list(inode, n), x),
    decreases n,
{
    if m < n {
        lemma_direct_list_membership(inode, m, n - 1, x);
        if inode.direct_pointers@[n - 1] != 0 {
            lemma_contain_concat(
                direct_list(inode, n - 1),
                seq![inode.direct_pointers@[n - 1]],
                x,
            );
        }
    }
}

/// A duplicate-free direct list stays duplicate-free on any shorter prefix.
proof fn lemma_direct_list_no_dup_prefix(inode: Inode, m: int, n: int)
    requires
        0 <= m <= n,
        direct_list(inode, n).no_duplicates(),
    ensures
        direct_list(inode, m).no_duplicates(),
    decreases n,
{
    if m < n {
        if inode.direct_pointers@[n - 1] != 0 {
            lemma_no_dup_concat(direct_list(inode, n - 1), seq![inode.direct_pointers@[n - 1]]);
        }
        lemma_direct_list_no_dup_prefix(inode, m, n - 1);
    }
}

/// Whether the inode's whole pointer graph is sound for deletion: every owned
/// block is a valid allocated block number, every pointer block lies on the
/// device, and no block is owned twice.
pub open spec fn inode_release_ok(dev: Seq<u8>, bm: Seq<bool>, inode: Inode) -> bool {
    let d = direct_list(inode, 12);
    let t0 = tree_list(dev, inode.indirect_pointers@[0], 1);
    let t1 = tree_list(dev, inode.indirect_pointers@[1], 2);
    let t2 = tree_list(dev, inode.indirect_pointers@[2], 3);
    &&& blocks_allocated(bm, d) && d.no_duplicates()
    &&& tree_in_device(dev, inode.indirect_pointers@[0], 1) && blocks_allocated(bm, t0)
        && t0.no_duplicates()
    &&& tree_in_device(dev, inode.indirect_pointers@[1], 2) && blocks_allocated(bm, t1)
        && t1.no_duplicates()
    &&& tree_in_device(dev, inode.indirect_pointers@[2], 3) && blocks_allocated(bm, t2)
        && t2.no_duplicates()
    &&& lists_disjoint(d, t0) && lists_disjoint(d, t1) && lists_disjoint(d, t2)
    &&& lists_disjoint(t0, t1) && lists_disjoint(t0, t2) && lists_disjoint(t1, t2)
}

/// Whether block `j` belongs to the inode's pointer graph: a nonzero direct
/// pointer, or a block of one of the three indirect trees.
pub open spec fn inode_releases(dev: Seq<u8>, inode: Inode, j: int) -> bool {
    ||| nodes_contain(direct_list(inode, 12), j)
    ||| nodes_contain(tree_list(dev, inode.indirect_pointers@[0], 1), j)
    ||| nodes_contain(tree_list(dev, inode.indirect_pointers@[1], 2), j)
    ||| nodes_contain(tree_list(dev, inode.indirect_pointers@[2], 3), j)
}

/// How many blocks the inode's pointer graph owns.
pub open spec fn inode_block_count(dev: Seq<u8>, inode: Inode) -> int {
    direct_list(inode, 12).len() as int + tree_list(dev, inode.indirect_pointers@[0], 1).len()
        as int + tree_list(dev, inode.indirect_pointers@[1], 2).len() as int + tree_list(
        dev,
        inode.indirect_pointers@[2],
        3,
    ).len() as int
}

/// Walks an inode's whole pointer graph depth-first on delete, freeing every
/// data block, then every pointer block that referenced it, and finally
/// clearing the direct and indirect pointer arrays in the inode itself. On
/// success exactly the graph's blocks return to the free pool, and the walk
/// always succeeds on a sound graph; a double free or an out-of-range block
/// met on the walk fails loudly and marks the graph corrupt. The caller
/// persists the inode record and the bitmap afterwards.
#[verifier::rlimit(100)]
#[verifier::spinoff_prover]
pub fn release_inode_blocks(inode: &mut Inode, manager: &BlockManager, bitmap: &mut Bitmap) -> (r:
    Result<(), FsError>)
    requires
        old(inode).wf(),
        old(bitmap).wf(),
    ensures
        final(inode).wf(),
        final(bitmap).wf(),
        final(bitmap)@.len() == old(bitmap)@.len(),
        forall|j: int| 0 <= j < old(bitmap)@.len() && !old(bitmap)@[j] ==> !final(bitmap)@[j],
        match r {
            Ok(_) => {
                &&& forall|k: int|
                    0 <= k < INODE_DIRECT_POINTERS ==> final(inode).direct_pointers@[k] == 0
                &&& forall|k: int| 0 <= k < 3 ==> final(inode).indirect_pointers@[k] == 0
                &&& forall|j: int|
                    0 <= j < old(bitmap)@.len() ==> final(bitmap)@[j] == (old(bitmap)@[j]
                        && !inode_releases(manager@, *old(inode), j))
                &&& count_free(final(bitmap)@) == count_free(old(bitmap)@) + inode_block_count(
                    manager@,
                    *old(inode),
                )
            },
            Err(e) => {
                &&& (e == FsError::DoubleFree || e == FsError::OutOfRange
                    || e == FsError::ShortRead)
                &&& !inode_release_ok(manager@, old(bitmap)@, *old(inode))
            },
        },
        inode_release_ok(manager@, old(bitmap)@, *old(inode)) ==> r is Ok,
{
    let ghost inode0 = *old(inode);
    let ghost bm0 = old(bitmap)@;
    let ghost dev = manager@;
    let mut k: usize = 0;
    while k < INODE_DIRECT_POINTERS
        invariant
            k <= INODE_DIRECT_POINTERS,
            inode.wf(),
            bitmap.wf(),
            inode0 == *old(inode),
            bm0 == old(bitmap)@,
            dev == manager@,
            inode0.wf(),
            bitmap@.len() == bm0.len(),
            inode.indirect_pointers@ == inode0.indirect_pointers@,
            forall|j: int| 0 <= j < k ==> inode.direct_pointers@[j] == 0,
            forall|j: int|
                k <= j < INODE_DIRECT_POINTERS ==> inode.direct_pointers@[j]
                    == inode0.direct_pointers@[j],
            forall|j: int|
                0 <= j < bm0.len() ==> bitmap@[j] == (bm0[j] && !nodes_contain(
                    direct_list(inode0, k as int),
                    j,
                )),
            count_free(bitmap@) == count_free(bm0) + direct_list(inode0, k as int).len(),
        decreases INODE_DIRECT_POINTERS - k,
    {
        let b = inode.direct_pointers[k];
        let ghost prefix = direct_list(inode0, k as int);
        let ghost bm_k = bitmap@;
        proof {
            assert(forall|j: int|
                0 <= j < bm0.len() ==> bm_k[j] == (bm0[j] && !nodes_contain(
                    direct_list(inode0, k as int),
                    j,
                )));
        }
        if b != 0 {
            proof {
                assert(direct_list(inode0, k as int + 1) == prefix + seq![b]);
            }
            match bitmap.free(b) {
                Ok(_) => {},
                Err(err) => {
                    proof {
                        if inode_release_ok(dev, bm0, inode0) {
                            assert(nodes_contain(direct_list(inode0, k as int + 1), b as int)) by {
                                lemma_contain_concat(prefix, seq![b], b as int);
                                lemma_contain_singleton(b, b as int);
                            }
                            lemma_direct_list_membership(inode0, k as int + 1, 12, b as int);
                            let i = choose|i: int|
                                0 <= i < direct_list(inode0, 12).len() && direct_list(
                                    inode0,
                                    12,
                                )[i] == b as int;
                            lemma_direct_list_no_dup_prefix(inode0, k as int + 1, 12);
                            lemma_no_dup_concat(prefix, seq![b]);
                            lemma_contain_singleton(b, b as int);
                            assert(bm0[b as int]);
                            assert(!nodes_contain(prefix, b as int));
                            assert(bm_k[b as int]);
                            assert(false);
                        }
                    }
                    return Err(err);
                },
            }
            proof {
                assert forall|j: int| 0 <= j < bm0.len() implies bitmap@[j] == (bm0[j]
                    && !nodes_contain(direct_list(inode0, k as int + 1), j)) by {
                    assert(prefix == direct_list(inode0, k as int));
                    assert(bitmap@ == bm_k.update(b as int, false));
                    assert(bm_k[j] == (bm0[j] && !nodes_contain(direct_list(inode0, k as int), j)));
                    lemma_contain_concat(prefix, seq![b], j);
                    lemma_contain_singleton(b, j);
                }
            }
            inode.direct_pointers.set(k, 0);
        } else {
            proof {
                assert(direct_list(inode0, k as int + 1) == prefix);
            }
        }
        k += 1;
    }
    let ghost d12 = direct_list(inode0, 12);
    let ghost t0 = tree_list(dev, inode0.indirect_pointers@[0], 1);
    let ghost t1 = tree_list(dev, inode0.indirect_pointers@[1], 2);
    let ghost t2 = tree_list(dev, inode0.indirect_pointers@[2], 3);
    let root0 = inode.indirect_pointers[0];
    let ghost bm_d = bitmap@;
    proof {
        if inode_release_ok(dev, bm0, inode0) {
            assert(blocks_allocated(bm_d, t0)) by {
                assert forall|q: int| 0 <= q < t0.len() implies 0 < #[trigger] t0[q] && (t0[q]
                    as int) < bm_d.len() && bm_d[t0[q] as int] by {
                    assert(nodes_contain(t0, t0[q] as int));
                }
            }
        }
    }
    match release_tree(manager, bitmap, root0, 1) {
        Ok(_) => {},
        Err(err) => {
            proof {
                if inode_release_ok(dev, bm0, inode0) {
                    assert(false);
                }
            }
            return Err(err);
        },
    }
    inode.indirect_pointers.set(0, 0);
    let ghost bm_t0 = bitmap@;
    proof {
        assert forall|j: int| 0 <= j < bm0.len() implies bm_t0[j] == (bm0[j] && !nodes_contain(
            d12,
            j,
        ) && !nodes_contain(t0, j)) by {}
    }
    let root1 = inode.indirect_pointers[1];
    proof {
        if inode_release_ok(dev, bm0, inode0) {
            assert(blocks_allocated(bm_t0, t1)) by {
                assert forall|q: int| 0 <= q < t1.len() implies 0 < #[trigger] t1[q] && (t1[q]
                    as int) < bm_t0.len() && bm_t0[t1[q] as int] by {
                    assert(nodes_contain(t1, t1[q] as int));
                }
            }
        }
    }
    match release_tree(manager, bitmap, root1, 2) {
        Ok(_) => {},
        Err(err) => {
            proof {
                if inode_release_ok(dev, bm0, inode0) {
                    assert(false);
                }
            }
            return Err(err);
        },
    }
    inode.indirect_pointers.set(1, 0);
    let ghost bm_t1 = bitmap@;
    proof {
        assert forall|j: int| 0 <= j < bm0.len() implies bm_t1[j] == (bm0[j] && !nodes_contain(
            d12,
            j,
        ) && !nodes_contain(t0, j) && !nodes_contain(t1, j)) by {}
    }
    let root2 = inode.indirect_pointers[2];
    proof {
        if inode_release_ok(dev, bm0, inode0) {
            assert(blocks_allocated(bm_t1, t2)) by {
                assert forall|q: int| 0 <= q < t2.len() implies 0 < #[trigger] t2[q] && (t2[q]
                    as int) < bm_t1.len() && bm_t1[t2[q] as int] by {
                    assert(nodes_contain(t2, t2[q] as int));
                }
            }
        }
    }
    match release_tree(manager, bitmap, root2, 3) {
        Ok(_) => {},
        Err(err) => {
            proof {
                if inode_release_ok(dev, bm0, inode0) {
                    assert(false);
                }
            }
            return Err(err);
        },
    }
    inode.indirect_pointers.set(2, 0);
    proof {
        assert forall|j: int| 0 <= j < bm0.len() implies bitmap@[j] == (bm0[j] && !inode_releases(
            dev,
            inode0,
            j,
        )) by {}
    }
    Ok(())
}

/// The indirect-pointer slot a resolve of `l` descends through.
pub open spec fn slot_of(l: int) -> int {
    if l < 12 + 512 {
        0
    } else if l < 12 + 512 + 512 * 512 {
        1
    } else {
        2
    }
}

} // verus!
