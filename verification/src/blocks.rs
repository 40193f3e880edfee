//! The block manager: sole owner of the backing storage, exposing fixed-size
//! block reads and writes by logical block number. The backing store is a flat
//! byte buffer logically partitioned into equal-size blocks; writing past its
//! current end extends it, reading past the end fails with a short-read error.
use vstd::prelude::*;

use crate::FsError;

verus! {

/// Size of one logical block in bytes, chosen at filesystem-creation time.
pub const BLOCKSIZE: usize = 2048;

/// A sequence of `n` zero bytes.
pub open spec fn zero_bytes(n: nat) -> Seq<u8> {
    Seq::new(n, |i: int| 0u8)
}

/// Whether block `n` lies entirely within the device bytes `dev`.
pub open spec fn block_in_device(dev: Seq<u8>, n: int) -> bool {
    (n + 1) * (BLOCKSIZE as int) <= dev.len()
}

/// The bytes of block `n` of the device bytes `dev`.
pub open spec fn block_at(dev: Seq<u8>, n: int) -> Seq<u8> {
    dev.subrange(n * (BLOCKSIZE as int), (n + 1) * (BLOCKSIZE as int))
}

/// The device bytes after one whole block `n` is overwritten with `data`:
/// the store is zero-extended up to the start of block `n` if it ends before
/// it, block `n` holds `data`, and every other byte keeps its old value.
pub open spec fn write_block_spec(dev: Seq<u8>, n: int, data: Seq<u8>) -> Seq<u8> {
    let bs = BLOCKSIZE as int;
    let new_len = if dev.len() >= (n + 1) * bs {
        dev.len() as int
    } else {
        (n + 1) * bs
    };
    Seq::new(
        new_len as nat,
        |i: int|
            if n * bs <= i < (n + 1) * bs {
                data[i - n * bs]
            } else if i < dev.len() {
                dev[i]
            } else {
                0u8
            },
    )
}

/// Owns the virtual device: a byte store logically partitioned into
/// `BLOCKSIZE`-byte blocks, with no structure imposed below this layer.
pub struct BlockManager {
    v_device: Vec<u8>,
}

impl View for BlockManager {
    type V = Seq<u8>;

    closed spec fn view(&self) -> Seq<u8> {
        self.v_device@
    }
}

impl BlockManager {
    /// A block manager over a fresh, empty backing store.
    pub fn new() -> (r: Self)
        ensures
            r@ == Seq::<u8>::empty(),
    {
        Self { v_device: Vec::new() }
    }

    /// A block manager over an existing in-memory backing store.
    pub fn from_in_memory(buffer: Vec<u8>) -> (r: Self)
        ensures
            r@ == buffer@,
    {
        Self { v_device: buffer }
    }

    /// Gives the backing store back, so that a caller can persist the device
    /// image elsewhere.
    pub fn into_device(self) -> (r: Vec<u8>)
        ensures
            r@ == self@,
    {
        self.v_device
    }

    /// Length of the backing store in bytes.
    pub fn device_len(&self) -> (r: usize)
        ensures
            r == self@.len(),
    {
        self.v_device.len()
    }

    /// Writes one whole block at `block_number`, extending the store if the
    /// block lies past its current end, and reports the number of bytes
    /// written (always a whole block).
    pub fn write_block(&mut self, block_number: usize, buffer: &Vec<u8>) -> (r: Result<
        usize,
        FsError,
    >)
        requires
            buffer@.len() == BLOCKSIZE,
            (block_number as int + 1) * (BLOCKSIZE as int) <= usize::MAX,
        ensures
            r == Ok::<usize, FsError>(BLOCKSIZE),
            final(self)@ == write_block_spec(old(self)@, block_number as int, buffer@),
    {
        let ghost dev0 = self@;
        let offset: usize = BLOCKSIZE * block_number;
        while self.v_device.len() < offset
            invariant
                offset + BLOCKSIZE <= usize::MAX,
                dev0.len() <= self.v_device@.len(),
                self.v_device@.len() <= offset || self.v_device@.len() == dev0.len(),
                forall|j: int| 0 <= j < dev0.len() ==> self.v_device@[j] == dev0[j],
                forall|j: int|
                    dev0.len() <= j < self.v_device@.len() ==> self.v_device@[j] == 0u8,
            decreases offset - self.v_device@.len(),
        {
            self.v_device.push(0u8);
        }
        let ghost padded = self.v_device@;
        proof {
            assert(offset <= padded.len());
            assert(forall|j: int|
                0 <= j < padded.len() ==> padded[j] == (if j < dev0.len() {
                    dev0[j]
                } else {
                    0u8
                }));
        }
        let mut i: usize = 0;
        while i < BLOCKSIZE
            invariant
                offset + BLOCKSIZE <= usize::MAX,
                i <= BLOCKSIZE,
                buffer@.len() == BLOCKSIZE,
                offset <= padded.len(),
                dev0.len() <= padded.len(),
                padded.len() <= offset || padded.len() == dev0.len(),
                forall|j: int|
                    0 <= j < padded.len() ==> padded[j] == (if j < dev0.len() {
                        dev0[j]
                    } else {
                        0u8
                    }),
                self.v_device@.len() == if padded.len() >= offset + i {
                    padded.len() as int
                } else {
                    offset + i
                },
                forall|j: int| 0 <= j < offset ==> self.v_device@[j] == padded[j],
                forall|j: int|
                    offset <= j < offset + i ==> self.v_device@[j] == buffer@[j - offset],
                forall|j: int|
                    offset + i <= j < self.v_device@.len() ==> self.v_device@[j] == padded[j],
            decreases BLOCKSIZE - i,
        {
            if offset + i < self.v_device.len() {
                self.v_device.set(offset + i, buffer[i]);
            } else {
                self.v_device.push(buffer[i]);
            }
            i += 1;
        }
        proof {
            let n = block_number as int;
            let w = write_block_spec(dev0, n, buffer@);
            assert(offset == n * (BLOCKSIZE as int));
            assert(self.v_device@.len() == w.len());
            assert forall|j: int| 0 <= j < w.len() implies self.v_device@[j] == w[j] by {
                if n * (BLOCKSIZE as int) <= j < (n + 1) * (BLOCKSIZE as int) {
                    assert(self.v_device@[j] == buffer@[j - offset]);
                } else if j < offset {
                    assert(self.v_device@[j] == padded[j]);
                } else {
                    assert(j >= offset + BLOCKSIZE);
                    assert(self.v_device@[j] == padded[j]);
                }
            }
            assert(self.v_device@ =~= w);
        }
        Ok(BLOCKSIZE)
    }

    /// Writes one whole block of zero bytes at `block_number`.
    pub fn zero_block(&mut self, block_number: usize) -> (r: Result<usize, FsError>)
        requires
            (block_number as int + 1) * (BLOCKSIZE as int) <= usize::MAX,
        ensures
            r == Ok::<usize, FsError>(BLOCKSIZE),
            final(self)@ == write_block_spec(old(self)@, block_number as int, zero_bytes(
                BLOCKSIZE as nat,
            )),
    {
        let mut zeroes: Vec<u8> = Vec::new();
        let mut i: usize = 0;
        while i < BLOCKSIZE
            invariant
                i <= BLOCKSIZE,
                zeroes@.len() == i,
                forall|j: int| 0 <= j < i ==> zeroes@[j] == 0u8,
            decreases BLOCKSIZE - i,
        {
            zeroes.push(0u8);
            i += 1;
        }
        proof {
            assert(zeroes@ =~= zero_bytes(BLOCKSIZE as nat));
        }
        self.write_block(block_number, &zeroes)
    }

    /// Reads one whole block at `block_number` into `buffer`. Reading a block
    /// past the end of the backing store fails with a short-read error and
    /// leaves `buffer` unchanged.
    pub fn read_block(&self, block_number: usize, buffer: &mut Vec<u8>) -> (r: Result<
        (),
        FsError,
    >)
        ensures
            match r {
                Ok(_) => block_in_device(self@, block_number as int) && final(buffer)@ == block_at(
                    self@,
                    block_number as int,
                ),
                Err(e) => e == FsError::ShortRead && !block_in_device(self@, block_number as int)
                    && final(buffer)@ == old(buffer)@,
            },
    {
        let ghost bs = BLOCKSIZE as int;
        proof {
            vstd::arithmetic::div_mod::lemma_fundamental_div_mod(self.v_device@.len() as int, bs);
        }
        if block_number >= self.v_device.len() / BLOCKSIZE {
            return Err(FsError::ShortRead);
        }
        let offset: usize = block_number * BLOCKSIZE;
        buffer.clear();
        let mut i: usize = 0;
        while i < BLOCKSIZE
            invariant
                i <= BLOCKSIZE,
                offset == block_number as int * bs,
                (block_number as int + 1) * bs <= self.v_device@.len(),
                offset + BLOCKSIZE <= self.v_device@.len(),
                self.v_device@.len() <= usize::MAX,
                buffer@.len() == i,
                forall|j: int| 0 <= j < i ==> buffer@[j] == self.v_device@[offset + j],
            decreases BLOCKSIZE - i,
        {
            buffer.push(self.v_device[offset + i]);
            i += 1;
        }
        proof {
            assert(buffer@ =~= block_at(self@, block_number as int));
        }
        Ok(())
    }
}

} // verus!
