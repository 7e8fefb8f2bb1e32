//! The block device: a fixed-geometry array of equally sized blocks, plus
//! the [`Block`] value used to carry one block's bytes in and out of it.

use vstd::prelude::*;
use crate::bytes::{splice, zeros, zero_vec};

verus! {

/// An error raised by the device itself.
#[derive(Clone, Copy, Debug, PartialEq, Eq, Structural)]
pub enum DeviceError {
    /// A block number at or beyond the device size.
    BlockOutOfRange,
    /// A block whose byte length differs from the device's block size.
    BlockSizeMismatch,
    /// A byte range that does not fit inside the addressed block or buffer.
    OffsetOutOfRange,
}

/// One block's worth of bytes, tagged with the absolute block number it
/// belongs to.
#[derive(Debug, Clone)]
pub struct Block {
    /// The absolute block number this block was read from or will be
    /// written to.
    pub block_no: u64,
    /// The block's bytes.
    pub data: Vec<u8>,
}

impl View for Block {
    type V = Seq<u8>;

    open spec fn view(&self) -> Seq<u8> {
        self.data@
    }
}

impl PartialEq for Block {
    fn eq(&self, other: &Block) -> (r: bool) {
        if self.block_no != other.block_no || self.data.len() != other.data.len() {
            proof {
                assert(self.block_no != other.block_no || self@ != other@);
            }
            return false;
        }
        let n: usize = self.data.len();
        let mut k: usize = 0;
        while k < n
            invariant
                n == self@.len() == other@.len(),
                k <= n,
                forall|i: int| 0 <= i < k ==> self@[i] == other@[i],
            decreases n - k,
        {
            if self.data[k] != other.data[k] {
                return false;
            }
            k = k + 1;
        }
        proof {
            assert(self@ =~= other@);
        }
        true
    }
}

impl vstd::std_specs::cmp::PartialEqSpecImpl for Block {
    open spec fn obeys_eq_spec() -> bool {
        true
    }

    open spec fn eq_spec(&self, other: &Block) -> bool {
        self.block_no == other.block_no && self@ == other@
    }
}

impl Eq for Block {

}

impl Block {
    /// A zeroed block of `block_size` bytes addressed at `block_no`.
    pub fn new_zero(block_no: u64, block_size: u64) -> (b: Block)
        requires
            block_size <= usize::MAX,
        ensures
            b.block_no == block_no,
            b@ == zeros(block_size as int),
    {
        Block { block_no, data: zero_vec(block_size as usize) }
    }

    /// The number of bytes in the block.
    pub fn len(&self) -> (n: usize)
        ensures
            n == self@.len(),
    {
        self.data.len()
    }

    /// The byte at offset `i`.
    pub fn byte_at(&self, i: usize) -> (r: u8)
        requires
            i < self@.len(),
        ensures
            r == self@[i as int],
    {
        self.data[i]
    }

    /// A read-only view of the block's bytes.
    pub fn contents_as_ref(&self) -> (r: &Vec<u8>)
        ensures
            r@ == self@,
    {
        &self.data
    }

    /// Write all of `src` at byte offset `off`; fails if the range does
    /// not fit in the block.
    pub fn write_data(&mut self, src: &Vec<u8>, off: u64) -> (r: Result<(), DeviceError>)
        ensures
            final(self).block_no == old(self).block_no,
            off + src@.len() <= old(self)@.len() ==> r == Ok::<(), DeviceError>(())
                && final(self)@ == splice(old(self)@, off as int, src@),
            off + src@.len() > old(self)@.len() ==> r == Err::<(), DeviceError>(
                DeviceError::OffsetOutOfRange,
            ) && final(self)@ == old(self)@,
    {
        let n: usize = self.data.len();
        if off > n as u64 || src.len() as u64 > n as u64 - off {
            return Err(DeviceError::OffsetOutOfRange);
        }
        crate::bytes::write_bytes(&mut self.data, off as usize, src);
        Ok(())
    }

    /// Read `n` bytes starting at byte offset `off`; fails if the range
    /// does not fit in the block.
    pub fn read_data(&self, off: u64, n: u64) -> (r: Result<Vec<u8>, DeviceError>)
        ensures
            off + n <= self@.len() ==> (r matches Ok(v) && v@ == self@.subrange(
                off as int,
                off as int + n as int,
            )),
            off + n > self@.len() ==> r == Err::<Vec<u8>, DeviceError>(
                DeviceError::OffsetOutOfRange,
            ),
    {
        let len: usize = self.data.len();
        if off > len as u64 || n > len as u64 - off {
            return Err(DeviceError::OffsetOutOfRange);
        }
        Ok(crate::bytes::read_bytes(&self.data, off as usize, n as usize))
    }
}

/// A fixed-geometry in-memory block device: `nblocks` blocks of
/// `block_size` bytes each, read and written one whole block at a time.
#[derive(Debug)]
pub struct Device {
    /// Bytes per block.
    pub block_size: u64,
    /// Number of blocks.
    pub nblocks: u64,
    /// The blocks themselves, one vector per block.
    pub blocks: Vec<Vec<u8>>,
}

impl View for Device {
    type V = Seq<Seq<u8>>;

    open spec fn view(&self) -> Seq<Seq<u8>> {
        self.blocks@.map_values(|b: Vec<u8>| b@)
    }
}

impl Device {
    /// The device's geometry invariant: it holds exactly `nblocks` blocks,
    /// each of exactly `block_size` bytes.
    pub open spec fn wf(self) -> bool {
        &&& self@.len() == self.nblocks
        &&& forall|i: int| 0 <= i < self@.len() ==> (#[trigger] self@[i]).len() == self.block_size
    }

    /// A zeroed device of the given geometry.
    pub fn new(block_size: u64, nblocks: u64) -> (d: Device)
        requires
            block_size <= usize::MAX,
        ensures
            d.wf(),
            d.block_size == block_size,
            d.nblocks == nblocks,
            d@.len() == nblocks,
            forall|i: int| 0 <= i < nblocks ==> d@[i] == zeros(block_size as int),
    {
        let mut blocks: Vec<Vec<u8>> = Vec::new();
        let mut k: u64 = 0;
        while k < nblocks
            invariant
                block_size <= usize::MAX,
                k <= nblocks,
                blocks@.len() == k,
                forall|i: int|
                    0 <= i < k ==> (#[trigger] blocks@[i])@ == zeros(block_size as int),
            decreases nblocks - k,
        {
            blocks.push(zero_vec(block_size as usize));
            k = k + 1;
        }
        let d = Device { block_size, nblocks, blocks };
        proof {
            assert(forall|i: int| 0 <= i < nblocks ==> d@[i] == zeros(block_size as int));
        }
        d
    }

    /// Read block `i` as a whole; fails if `i` is beyond the device.
    pub fn read_block(&self, i: u64) -> (r: Result<Block, DeviceError>)
        ensures
            i < self@.len() ==> (r matches Ok(b) && b.block_no == i && b@ == self@[i as int]),
            i >= self@.len() ==> r == Err::<Block, DeviceError>(DeviceError::BlockOutOfRange),
    {
        let n: usize = self.blocks.len();
        if i >= n as u64 {
            return Err(DeviceError::BlockOutOfRange);
        }
        let data = crate::bytes::read_bytes(&self.blocks[i as usize], 0, self.blocks[i as usize].len());
        proof {
            assert(data@ =~= self@[i as int]);
        }
        Ok(Block { block_no: i, data })
    }

    /// Write `b` back to block `b.block_no` as a whole; fails if the block
    /// number is beyond the device or the byte length is not `block_size`.
    pub fn write_block(&mut self, b: &Block) -> (r: Result<(), DeviceError>)
        ensures
            final(self).block_size == old(self).block_size,
            final(self).nblocks == old(self).nblocks,
            b.block_no < old(self)@.len() && b@.len() == old(self).block_size ==> r == Ok::<
                (),
                DeviceError,
            >(()) && final(self)@ == old(self)@.update(b.block_no as int, b@),
            b.block_no >= old(self)@.len() ==> r == Err::<(), DeviceError>(
                DeviceError::BlockOutOfRange,
            ) && final(self)@ == old(self)@,
            b.block_no < old(self)@.len() && b@.len() != old(self).block_size ==> r == Err::<
                (),
                DeviceError,
            >(DeviceError::BlockSizeMismatch) && final(self)@ == old(self)@,
    {
        let n: usize = self.blocks.len();
        if b.block_no >= n as u64 {
            return Err(DeviceError::BlockOutOfRange);
        }
        if b.len() as u64 != self.block_size {
            return Err(DeviceError::BlockSizeMismatch);
        }
        let data = crate::bytes::read_bytes(b.contents_as_ref(), 0, b.len());
        proof {
            assert(data@ =~= b@);
        }
        self.blocks.set(b.block_no as usize, data);
        proof {
            assert(self@ =~= old(self)@.update(b.block_no as int, b@));
        }
        Ok(())
    }
}

} // verus!
