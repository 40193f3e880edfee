//! The free-space bitmap allocator: a packed bit vector with one bit per
//! resource, bit set meaning used and bit clear meaning free, persisted across
//! a contiguous block range. It tracks free/used status, finds free resources
//! lowest-index-first, and detects double frees.
use vstd::prelude::*;

use crate::FsError;
use crate::blocks::{BLOCKSIZE, BlockManager};
use crate::superblock::bitmap_blocks_needed;

verus! {

/// Bit `i` of a packed little-endian bit vector: bit 0 is the least
/// significant bit of the first byte.
pub open spec fn nth_bit(bytes: Seq<u8>, i: int) -> bool {
    (bytes[i / 8] >> ((i % 8) as u8)) & 1u8 == 1u8
}

/// Bit `i` of the packed bitmap persisted on the device starting at block
/// `first_block`.
pub open spec fn device_bit(dev: Seq<u8>, first_block: int, i: int) -> bool {
    (dev[first_block * (BLOCKSIZE as int) + i / 8] >> ((i % 8) as u8)) & 1u8 == 1u8
}

/// How many entries of a free/used sequence are free.
pub open spec fn count_free(s: Seq<bool>) -> int
    decreases s.len(),
{
    if s.len() == 0 {
        0
    } else {
        count_free(s.drop_last()) + if s.last() {
            0int
        } else {
            1int
        }
    }
}

/// Updating one entry moves the free count by exactly the difference the
/// entry contributes before and after.
pub proof fn lemma_count_free_update(s: Seq<bool>, i: int, v: bool)
    requires
        0 <= i < s.len(),
    ensures
        count_free(s.update(i, v)) == count_free(s) + (if !v {
            1int
        } else {
            0int
        }) - (if !s[i] {
            1int
        } else {
            0int
        }),
    decreases s.len(),
{
    let s2 = s.update(i, v);
    if i == s.len() - 1 {
        assert(s2.drop_last() =~= s.drop_last());
    } else {
        lemma_count_free_update(s.drop_last(), i, v);
        assert(s2.drop_last() =~= s.drop_last().update(i, v));
        assert(s2.last() == s.last());
    }
}

/// A sequence with a free entry has a positive free count.
pub proof fn lemma_count_free_positive(s: Seq<bool>, i: int)
    requires
        0 <= i < s.len(),
        !s[i],
    ensures
        count_free(s) >= 1,
    decreases s.len(),
{
    if i == s.len() - 1 {
        lemma_count_free_bound(s.drop_last());
    } else {
        lemma_count_free_positive(s.drop_last(), i);
    }
}

/// A sequence with a used entry has at least one non-free slot.
pub proof fn lemma_count_free_used_bound(s: Seq<bool>, i: int)
    requires
        0 <= i < s.len(),
        s[i],
    ensures
        count_free(s) <= s.len() - 1,
    decreases s.len(),
{
    if i == s.len() - 1 {
        lemma_count_free_bound(s.drop_last());
    } else {
        lemma_count_free_used_bound(s.drop_last(), i);
    }
}

/// A sequence with every entry used has free count zero.
pub proof fn lemma_count_free_all_used(s: Seq<bool>)
    requires
        forall|j: int| 0 <= j < s.len() ==> s[j],
    ensures
        count_free(s) == 0,
    decreases s.len(),
{
    if s.len() > 0 {
        lemma_count_free_all_used(s.drop_last());
    }
}

/// The free count never exceeds the number of entries.
pub proof fn lemma_count_free_bound(s: Seq<bool>)
    ensures
        0 <= count_free(s) <= s.len(),
    decreases s.len(),
{
    if s.len() > 0 {
        lemma_count_free_bound(s.drop_last());
    }
}

/// Law: allocating a free resource and then immediately freeing it restores
/// both the bitmap and the free count to their prior state.
pub proof fn lemma_allocate_free_round_trip(bm: Seq<bool>, i: int)
    requires
        0 <= i < bm.len(),
        !bm[i],
    ensures
        bm.update(i, true).update(i, false) == bm,
        count_free(bm.update(i, true)) == count_free(bm) - 1,
        count_free(bm.update(i, true).update(i, false)) == count_free(bm),
{
    assert(bm.update(i, true).update(i, false) =~= bm);
    lemma_count_free_update(bm, i, true);
}

/// Setting one bit of a byte leaves every other bit of the byte unchanged.
proof fn lemma_set_bit(b: u8, k: u8, t: u8)
    requires
        k < 8,
        t < 8,
    ensures
        ((b | (1u8 << k)) >> k) & 1u8 == 1u8,
        t != k ==> ((b | (1u8 << k)) >> t) & 1u8 == (b >> t) & 1u8,
{
    assert(((b | (1u8 << k)) >> k) & 1u8 == 1u8) by (bit_vector)
        requires
            k < 8,
    ;
    assert(t != k && k < 8 && t < 8 ==> ((b | (1u8 << k)) >> t) & 1u8 == (b >> t) & 1u8)
        by (bit_vector);
}

/// Clearing one bit of a byte leaves every other bit of the byte unchanged.
proof fn lemma_clear_bit(b: u8, k: u8, t: u8)
    requires
        k < 8,
        t < 8,
    ensures
        ((b & !(1u8 << k)) >> k) & 1u8 == 0u8,
        t != k ==> ((b & !(1u8 << k)) >> t) & 1u8 == (b >> t) & 1u8,
{
    assert(((b & !(1u8 << k)) >> k) & 1u8 == 0u8) by (bit_vector)
        requires
            k < 8,
    ;
    assert(t != k && k < 8 && t < 8 ==> ((b & !(1u8 << k)) >> t) & 1u8 == (b >> t) & 1u8)
        by (bit_vector);
}

/// The packed free/used tracking structure: one bit per resource, a set bit
/// meaning used, together with a count of the free bits. The bitmap is
/// authoritative; the superblock counters only mirror it.
pub struct Bitmap {
    bytes: Vec<u8>,
    n_bits: u32,
    n_free: u32,
}

impl View for Bitmap {
    type V = Seq<bool>;

    /// The used/free state of every tracked resource: `true` means used.
    closed spec fn view(&self) -> Seq<bool> {
        Seq::new(self.n_bits as nat, |i: int| nth_bit(self.bytes@, i))
    }
}

impl Bitmap {
    /// The structural invariant: the byte store holds exactly the rounded-up
    /// number of bytes and the free counter equals the number of free bits.
    pub closed spec fn wf(self) -> bool {
        &&& self.bytes@.len() == (self.n_bits as int + 7) / 8
        &&& self.n_free as int == count_free(self@)
    }

    /// A bitmap of `n_bits` resources, all free.
    pub fn new(n_bits: u32) -> (r: Bitmap)
        ensures
            r.wf(),
            r@.len() == n_bits,
            forall|i: int| 0 <= i < n_bits ==> !r@[i],
            r.free_count() == n_bits,
            count_free(r@) == n_bits,
    {
        let n_bytes: usize = ((n_bits as u64 + 7) / 8) as usize;
        let mut bytes: Vec<u8> = Vec::new();
        let mut i: usize = 0;
        while i < n_bytes
            invariant
                i <= n_bytes,
                bytes@.len() == i,
                forall|j: int| 0 <= j < i ==> bytes@[j] == 0u8,
            decreases n_bytes - i,
        {
            bytes.push(0u8);
            i += 1;
        }
        let r = Bitmap { bytes, n_bits, n_free: n_bits };
        proof {
            assert(forall|b: u8, k: u8| b == 0 && k < 8 ==> (b >> k) & 1u8 == 0u8) by (bit_vector);
            assert forall|j: int| 0 <= j < n_bits implies !r@[j] by {
                assert(r.bytes@[j / 8] == 0u8);
                assert(0 <= j % 8 < 8);
            }
            lemma_all_free_count(r@);
        }
        r
    }

    /// The number of resources the bitmap tracks.
    pub fn bit_count(&self) -> (r: u32)
        ensures
            r == self@.len(),
    {
        self.n_bits
    }

    /// The number of free resources.
    pub closed spec fn free_count(&self) -> u32 {
        self.n_free
    }

    /// The number of free resources, which always equals the number of free
    /// bits.
    pub fn read_free_count(&self) -> (r: u32)
        requires
            self.wf(),
        ensures
            r == self.free_count(),
            r as int == count_free(self@),
    {
        self.n_free
    }

    /// Read-only probe of one bit, used by consistency checks.
    pub fn is_free(&self, index: u32) -> (r: bool)
        requires
            self.wf(),
            index < self@.len(),
        ensures
            r == !self@[index as int],
    {
        let byte = self.bytes[(index / 8) as usize];
        let k = (index % 8) as u8;
        proof {
            assert(forall|b: u8, t: u8| (b >> t) & 1u8 == 0u8 || (b >> t) & 1u8 == 1u8)
                by (bit_vector);
        }
        ((byte >> k) & 1u8) == 0u8
    }

    /// Scans for the lowest-indexed free bit, marks it used and decrements
    /// the free counter. Lowest-index-first is the tie-break policy. Fails
    /// with capacity exhaustion exactly when no bit is free.
    pub fn allocate(&mut self) -> (r: Result<u32, FsError>)
        requires
            old(self).wf(),
        ensures
            final(self).wf(),
            final(self)@.len() == old(self)@.len(),
            match r {
                Ok(i) => 0 <= i < old(self)@.len() && !old(self)@[i as int] && (forall|j: int|
                    0 <= j < i ==> old(self)@[j]) && final(self)@ == old(self)@.update(
                    i as int,
                    true,
                ) && final(self).free_count() as int == old(self).free_count() - 1 && count_free(
                    final(self)@,
                ) == count_free(old(self)@) - 1,
                Err(e) => {
                    &&& e == FsError::CapacityExhausted
                    &&& count_free(old(self)@) == 0
                    &&& final(self)@ == old(self)@
                    &&& final(self).free_count() == old(self).free_count()
                },
            },
    {
        let n = self.n_bits;
        let mut i: u32 = 0;
        while i < n
            invariant
                n == self.n_bits,
                i <= n,
                self.wf(),
                self.n_bits == old(self).n_bits,
                self.n_free == old(self).n_free,
                self.bytes@ == old(self).bytes@,
                self@ == old(self)@,
                forall|j: int| 0 <= j < i ==> self@[j],
            decreases n - i,
        {
            if self.is_free(i) {
                self.set_bit(i);
                proof {
                    lemma_count_free_update(old(self)@, i as int, true);
                    lemma_count_free_positive(old(self)@, i as int);
                }
                self.n_free = self.n_free - 1;
                return Ok(i);
            }
            i += 1;
        }
        proof {
            lemma_count_free_all_used(self@);
        }
        Err(FsError::CapacityExhausted)
    }

    /// Marks the bit at `index` free and increments the free counter. Freeing
    /// an already-free index is a double free and fails loudly so that bugs
    /// in callers surface immediately.
    pub fn free(&mut self, index: u32) -> (r: Result<(), FsError>)
        requires
            old(self).wf(),
        ensures
            final(self).wf(),
            final(self)@.len() == old(self)@.len(),
            match r {
                Ok(_) => index < old(self)@.len() && old(self)@[index as int] && final(self)@
                    == old(self)@.update(index as int, false) && final(self).free_count() as int
                    == old(self).free_count() + 1 && count_free(final(self)@) == count_free(
                    old(self)@,
                ) + 1,
                Err(e) => {
                    &&& final(self)@ == old(self)@
                    &&& final(self).free_count() == old(self).free_count()
                    &&& (e == FsError::OutOfRange ==> index >= old(self)@.len())
                    &&& (e == FsError::DoubleFree ==> index < old(self)@.len() && !old(self)@[index as int])
                    &&& (e == FsError::OutOfRange || e == FsError::DoubleFree)
                },
            },
    {
        if index >= self.n_bits {
            return Err(FsError::OutOfRange);
        }
        if self.is_free(index) {
            return Err(FsError::DoubleFree);
        }
        proof {
            lemma_count_free_update(old(self)@, index as int, false);
            lemma_count_free_used_bound(old(self)@, index as int);
        }
        self.clear_bit(index);
        self.n_free = self.n_free + 1;
        Ok(())
    }

    /// Marks the bit at `index` used and decrements the free counter, used to
    /// pre-mark the reserved metadata blocks at creation time. Marking a used
    /// index again fails loudly.
    pub fn set_used(&mut self, index: u32) -> (r: Result<(), FsError>)
        requires
            old(self).wf(),
        ensures
            final(self).wf(),
            final(self)@.len() == old(self)@.len(),
            match r {
                Ok(_) => index < old(self)@.len() && !old(self)@[index as int] && final(self)@
                    == old(self)@.update(index as int, true) && final(self).free_count() as int
                    == old(self).free_count() - 1 && count_free(final(self)@) == count_free(
                    old(self)@,
                ) - 1,
                Err(e) => {
                    &&& final(self)@ == old(self)@
                    &&& final(self).free_count() == old(self).free_count()
                    &&& (e == FsError::OutOfRange ==> index >= old(self)@.len())
                    &&& (e == FsError::AlreadyUsed ==> index < old(self)@.len() && old(self)@[index as int])
                    &&& (e == FsError::OutOfRange || e == FsError::AlreadyUsed)
                },
            },
    {
        if index >= self.n_bits {
            return Err(FsError::OutOfRange);
        }
        if !self.is_free(index) {
            return Err(FsError::AlreadyUsed);
        }
        proof {
            lemma_count_free_update(old(self)@, index as int, true);
            lemma_count_free_positive(old(self)@, index as int);
        }
        self.set_bit(index);
        self.n_free = self.n_free - 1;
        Ok(())
    }

    /// Writes the packed bit vector back into its reserved block range on the
    /// device, starting at `first_block`, padding the last block with zero
    /// bytes. After any mutation the bitmap must be written back before the
    /// operation is considered durable.
    pub fn persist(&self, manager: &mut BlockManager, first_block: u32) -> (r: Result<
        usize,
        FsError,
    >)
        requires
            self.wf(),
            (first_block as int + bitmap_blocks_needed(self@.len() as int)) * (BLOCKSIZE as int)
                <= usize::MAX,
        ensures
            match r {
                Ok(n) => n as int == bitmap_blocks_needed(self@.len() as int) * (BLOCKSIZE as int),
                Err(_) => false,
            },
            ({
                let bs = BLOCKSIZE as int;
                let first = first_block as int;
                let region_end = (first + bitmap_blocks_needed(self@.len() as int)) * bs;
                &&& final(manager)@.len() == (if old(manager)@.len() >= region_end
                    || bitmap_blocks_needed(self@.len() as int) == 0 {
                    old(manager)@.len() as int
                } else {
                    region_end
                })
                &&& forall|i: int|
                    0 <= i < old(manager)@.len() && !(first * bs <= i < region_end)
                        ==> final(manager)@[i] == old(manager)@[i]
                &&& forall|i: int|
                    old(manager)@.len() <= i < final(manager)@.len() && !(first * bs <= i
                        < region_end) ==> final(manager)@[i] == 0u8
                &&& forall|i: int|
                    0 <= i < self@.len() ==> device_bit(final(manager)@, first, i) == self@[i]
                &&& forall|i: int|
                    first * bs + (self@.len() as int + 7) / 8 <= i < first * bs
                        + bitmap_blocks_needed(self@.len() as int) * bs ==> final(manager)@[i]
                        == 0u8
            }),
    {
        let ghost dev0 = old(manager)@;
        let ghost bs = BLOCKSIZE as int;
        let ghost first = first_block as int;
        let ghost n = self.n_bits as int;
        let n_blocks: usize = (((self.n_bits as u64) + 8 * 2048 - 1) / (8 * 2048)) as usize;
        proof {
            assert(n_blocks as int == bitmap_blocks_needed(n));
            vstd::arithmetic::div_mod::lemma_fundamental_div_mod(n + 8 * (BLOCKSIZE as int) - 1, 8 * (BLOCKSIZE as int));
            vstd::arithmetic::div_mod::lemma_fundamental_div_mod(n + 7, 8);
            assert(self.bytes@.len() <= n_blocks as int * bs) by (nonlinear_arith)
                requires
                    bs == 2048,
                    n >= 0,
                    8 * self.bytes@.len() <= n + 7,
                    8 * bs * (n_blocks as int) >= n,
            ;
        }
        let mut b: usize = 0;
        while b < n_blocks
            invariant
                self.wf(),
                n == self.n_bits as int,
                bs == BLOCKSIZE as int,
                first == first_block as int,
                b <= n_blocks,
                self.bytes@.len() <= n_blocks as int * bs,
                (first + n_blocks as int) * bs <= usize::MAX,
                b == 0 ==> manager@.len() == dev0.len(),
                b >= 1 ==> manager@.len() == (if dev0.len() >= (first + b) * bs {
                    dev0.len() as int
                } else {
                    (first + b) * bs
                }),
                forall|i: int|
                    first * bs <= i < first * bs + b * bs ==> manager@[i] == (if i - first * bs
                        < self.bytes@.len() {
                        self.bytes@[i - first * bs]
                    } else {
                        0u8
                    }),
                forall|i: int|
                    0 <= i < dev0.len() && !(first * bs <= i < (first + b) * bs) ==> manager@[i]
                        == dev0[i],
                forall|i: int|
                    dev0.len() <= i < manager@.len() && !(first * bs <= i < (first + b) * bs)
                        ==> manager@[i] == 0u8,
            decreases n_blocks - b,
        {
            let mut chunk: Vec<u8> = Vec::new();
            let mut t: usize = 0;
            proof {
                assert((b + 1) * bs <= n_blocks as int * bs) by (nonlinear_arith)
                    requires
                        b < n_blocks,
                        bs > 0,
                ;
                assert(b as int * bs + bs == (b + 1) * bs) by (nonlinear_arith);
                assert(first * bs + n_blocks as int * bs == (first + n_blocks as int) * bs)
                    by (nonlinear_arith);
            }
            while t < BLOCKSIZE
                invariant
                    t <= BLOCKSIZE,
                    bs == BLOCKSIZE as int,
                    chunk@.len() == t,
                    b as int * bs + BLOCKSIZE <= n_blocks as int * bs,
                    n_blocks as int * bs <= usize::MAX,
                    forall|u: int|
                        0 <= u < t ==> chunk@[u] == (if b * bs + u < self.bytes@.len() {
                            self.bytes@[b * bs + u]
                        } else {
                            0u8
                        }),
                decreases BLOCKSIZE - t,
            {
                let idx: usize = b * BLOCKSIZE + t;
                proof {
                    assert(idx as int == b as int * bs + t as int);
                }
                if idx < self.bytes.len() {
                    let v = self.bytes[idx];
                    chunk.push(v);
                } else {
                    chunk.push(0u8);
                }
                t += 1;
            }
            let ghost dev_before = manager@;
            proof {
                assert((first + b as int + 1) * bs <= (first + n_blocks as int) * bs)
                    by (nonlinear_arith)
                    requires
                        b < n_blocks,
                        bs > 0,
                ;
            }
            match manager.write_block(first_block as usize + b, &chunk) {
                Ok(_) => {},
                Err(_) => {
                    proof {
                        assert(false);
                    }
                },
            }
            proof {
                let k = first + b as int;
                assert((first + b as int) * bs + bs == (first + b as int + 1) * bs)
                    by (nonlinear_arith);
                assert((first + b as int) * bs == first * bs + b as int * bs)
                    by (nonlinear_arith);
                assert(b as int * bs + bs == (b as int + 1) * bs) by (nonlinear_arith);
                assert(manager@.len() == (if dev_before.len() >= (k + 1) * bs {
                    dev_before.len() as int
                } else {
                    (k + 1) * bs
                }));
                assert(manager@.len() == (if dev0.len() >= (k + 1) * bs {
                    dev0.len() as int
                } else {
                    (k + 1) * bs
                }));
                assert forall|i: int|
                    first * bs <= i < first * bs + (b + 1) * bs implies manager@[i] == (if i
                    - first * bs < self.bytes@.len() {
                    self.bytes@[i - first * bs]
                } else {
                    0u8
                }) by {
                    let u = i - first * bs;
                    if u < b * bs {
                        assert(i < k * bs);
                        assert(manager@[i] == dev_before[i]);
                    } else {
                        assert(k * bs <= i < (k + 1) * bs);
                        assert(manager@[i] == chunk@[i - k * bs]);
                        let w = u - b as int * bs;
                        assert(i - k * bs == w);
                        assert(chunk@[w] == (if b as int * bs + w < self.bytes@.len() {
                            self.bytes@[b as int * bs + w]
                        } else {
                            0u8
                        }));
                        assert(b as int * bs + w == u);
                    }
                }
            }
            b += 1;
        }
        proof {
            assert forall|i: int| 0 <= i < self@.len() implies device_bit(manager@, first, i)
                == self@[i] by {
                assert(8 * ((n + 7) / 8) >= n);
                assert(0 <= i / 8 < self.bytes@.len());
                assert(self.bytes@.len() <= n_blocks as int * bs);
                assert(manager@[first * bs + i / 8] == self.bytes@[i / 8]);
            }
            assert(n_blocks as int * bs + first * bs == (first + n_blocks as int) * bs)
                by (nonlinear_arith);
            assert forall|i: int|
                first * bs + (self@.len() as int + 7) / 8 <= i < first * bs + bitmap_blocks_needed(
                    self@.len() as int,
                ) * bs implies manager@[i] == 0u8 by {
                let u = i - first * bs;
                assert(u >= self.bytes@.len());
                assert(manager@[first * bs + u] == 0u8);
            }
        }
        Ok(n_blocks * BLOCKSIZE)
    }

    /// Sets bit `index` of the byte store.
    fn set_bit(&mut self, index: u32)
        requires
            old(self).wf(),
            index < old(self)@.len(),
        ensures
            final(self)@ == old(self)@.update(index as int, true),
            final(self).n_bits == old(self).n_bits,
            final(self).n_free == old(self).n_free,
            final(self).bytes@.len() == old(self).bytes@.len(),
    {
        let byte_index = (index / 8) as usize;
        let bit_index = (index % 8) as u8;
        let b = self.bytes[byte_index];
        self.bytes.set(byte_index, b | (1u8 << bit_index));
        proof {
            assert forall|j: int| 0 <= j < self@.len() implies self@[j] == old(self)@.update(
                index as int,
                true,
            )[j] by {
                if j / 8 == byte_index as int {
                    lemma_set_bit(b, bit_index, (j % 8) as u8);
                    if j != index as int {
                        assert((j % 8) as u8 != bit_index);
                    }
                } else {
                    assert(self.bytes@[j / 8] == old(self).bytes@[j / 8]);
                }
            }
            assert(self@ =~= old(self)@.update(index as int, true));
        }
    }

    /// Clears bit `index` of the byte store.
    fn clear_bit(&mut self, index: u32)
        requires
            old(self).wf(),
            index < old(self)@.len(),
        ensures
            final(self)@ == old(self)@.update(index as int, false),
            final(self).n_bits == old(self).n_bits,
            final(self).n_free == old(self).n_free,
            final(self).bytes@.len() == old(self).bytes@.len(),
    {
        let byte_index = (index / 8) as usize;
        let bit_index = (index % 8) as u8;
        let b = self.bytes[byte_index];
        self.bytes.set(byte_index, b & !(1u8 << bit_index));
        proof {
            assert forall|j: int| 0 <= j < self@.len() implies self@[j] == old(self)@.update(
                index as int,
                false,
            )[j] by {
                if j / 8 == byte_index as int {
                    lemma_clear_bit(b, bit_index, (j % 8) as u8);
                    if j != index as int {
                        assert((j % 8) as u8 != bit_index);
                    }
                } else {
                    assert(self.bytes@[j / 8] == old(self).bytes@[j / 8]);
                }
            }
            assert(self@ =~= old(self)@.update(index as int, false));
        }
    }
}

/// An all-free view has its whole length as free count.
proof fn lemma_all_free_count(s: Seq<bool>)
    requires
        forall|j: int| 0 <= j < s.len() ==> !s[j],
    ensures
        count_free(s) == s.len(),
    decreases s.len(),
{
    if s.len() > 0 {
        lemma_all_free_count(s.drop_last());
    }
}

} // verus!
