//! The block layer: formatting and mounting, raw block access, the
//! superblock accessors, and the first-fit data-block allocator.

use vstd::prelude::*;
use crate::bytes::{
    lemma_all_bits_full, lemma_bit_clear, lemma_bit_set, lemma_bit_test, lemma_byte_all_ones,
    lemma_byte_zero, nth_bit, zeros,
};
use crate::device::{Block, Device, DeviceError};
use crate::disk::{
    bit_block, bit_byte, bit_of, data_block, disk_wf, inode_block, inode_offset, inode_v,
    lemma_bit_coords_of, lemma_bit_coords_unique, lemma_bit_in_range, lemma_inode_slot_in_range,
    same_bits, same_bits_except, same_data, same_data_except, same_inodes, sb_of,
};
use crate::layout::{
    decode_superblock, dinode_default, encode_superblock, lemma_dinode_of_zeros,
    lemma_sb_of_bytes_prefix_eq, superblock_valid, SuperBlock, DINODE_SIZE, SUPERBLOCK_SIZE,
};

verus! {

/// An error of the block layer.
#[derive(Clone, Copy, Debug, PartialEq, Eq, Structural)]
pub enum BlockFSError {
    /// An error propagated from the block device.
    FileSystemError(DeviceError),
    /// The superblock fails the layout invariants.
    SuperBlockInvalid,
    /// The device geometry does not match the stored superblock.
    DeviceConfigurationInvalid,
    /// An access outside the valid range: a data block index at or beyond
    /// `ndatablocks`, an inode index at or beyond `ninodes`, a full bitmap
    /// on allocation, or no free inode on inode allocation.
    OutsideOfTheBoundariesError,
    /// Freeing a data block whose allocation bit is already clear.
    MemoryAlreadyDeallocated,
}

/// A disk freshly formatted with superblock `sb`: every inode is the
/// default free inode, every allocation bit is clear, and every data
/// block is zeroed.
pub open spec fn fresh_disk(d: Seq<Seq<u8>>, sb: SuperBlock) -> bool {
    &&& sb_of(d) == sb
    &&& forall|k: int| 0 <= k < sb.ninodes ==> #[trigger] inode_v(d, k) == dinode_default()
    &&& forall|i: int| 0 <= i < sb.ndatablocks ==> !(#[trigger] bit_of(d, i))
    &&& forall|j: int|
        0 <= j < sb.ndatablocks ==> #[trigger] data_block(d, j) == zeros(sb.block_size as int)
}

/// The block-layer filesystem: the owned device, with the superblock,
/// the inode table, the allocation bitmap and the data region all read
/// and written through whole-block device operations.
pub struct BlockFS {
    /// The owned block device.
    pub device: Device,
}

impl View for BlockFS {
    type V = Seq<Seq<u8>>;

    open spec fn view(&self) -> Seq<Seq<u8>> {
        self.device@
    }
}

impl BlockFS {
    /// A mounted filesystem is well formed when the device keeps its
    /// geometry invariant and block 0 decodes to a valid superblock that
    /// matches that geometry.
    pub open spec fn wf(self) -> bool {
        &&& self.device.wf()
        &&& disk_wf(self@)
        &&& sb_of(self@).block_size == self.device.block_size
        &&& sb_of(self@).nblocks == self.device.nblocks
    }

    /// The superblock this filesystem stores in block 0.
    pub open spec fn sb(self) -> SuperBlock {
        sb_of(self@)
    }

    /// Whether `sb` satisfies all layout invariants of the superblock.
    pub fn sb_valid(sb: &SuperBlock) -> (r: bool)
        ensures
            r == sb.valid(),
    {
        superblock_valid(sb)
    }

    /// Format a fresh zeroed device with the given superblock and mount
    /// it.  Fails if and only if the superblock is invalid.
    pub fn mkfs(sb: &SuperBlock) -> (r: Result<BlockFS, BlockFSError>)
        ensures
            sb.valid() <==> r is Ok,
            !sb.valid() ==> r == Err::<BlockFS, BlockFSError>(BlockFSError::SuperBlockInvalid),
            r matches Ok(fs) ==> {
                &&& fs.wf()
                &&& fs.device.block_size == sb.block_size
                &&& fs.device.nblocks == sb.nblocks
                &&& fresh_disk(fs@, *sb)
            },
    {
        if !superblock_valid(sb) {
            return Err(BlockFSError::SuperBlockInvalid);
        }
        let mut device = Device::new(sb.block_size, sb.nblocks);
        let mut super_block = Block::new_zero(0, sb.block_size);
        let enc = encode_superblock(sb);
        match super_block.write_data(&enc, 0) {
            Ok(_) => {},
            Err(e) => {
                return Err(BlockFSError::FileSystemError(e));
            },
        }
        match device.write_block(&super_block) {
            Ok(_) => {},
            Err(e) => {
                return Err(BlockFSError::FileSystemError(e));
            },
        }
        let fs = BlockFS { device };
        proof {
            let d = fs@;
            let bs = sb.block_size as int;
            assert(d[0] == crate::bytes::splice(zeros(bs), 0, enc@));
            assert(d[0].subrange(0, SUPERBLOCK_SIZE as int) =~= enc@.subrange(
                0,
                SUPERBLOCK_SIZE as int,
            ));
            lemma_sb_of_bytes_prefix_eq(d[0], enc@);
            assert(sb_of(d) == *sb);
            assert forall|i: int| 0 < i < d.len() implies d[i] == zeros(bs) by {}
            assert(fs.wf());
            assert forall|k: int| 0 <= k < sb.ninodes implies #[trigger] inode_v(d, k)
                == dinode_default() by {
                lemma_inode_slot_in_range(*sb, k);
                let ib = inode_block(*sb, k);
                let off = inode_offset(*sb, k);
                assert(d[ib] == zeros(bs));
                let slot = d[ib].subrange(off, off + DINODE_SIZE);
                assert forall|i: int| 0 <= i < slot.len() implies slot[i] == 0u8 by {}
                lemma_dinode_of_zeros(slot);
            }
            assert forall|i: int| 0 <= i < sb.ndatablocks implies !(#[trigger] bit_of(d, i)) by {
                lemma_bit_in_range(*sb, i);
                assert(d[bit_block(*sb, i)] == zeros(bs));
                lemma_byte_zero((i % 8) as u8);
            }
            assert forall|j: int| 0 <= j < sb.ndatablocks implies #[trigger] data_block(d, j)
                == zeros(bs) by {}
        }
        Ok(fs)
    }

    /// Mount an existing device: decode block 0 and accept only a valid
    /// superblock whose geometry matches the device's.
    pub fn mountfs(dev: Device) -> (r: Result<BlockFS, BlockFSError>)
        requires
            dev.wf(),
        ensures
            dev@.len() == 0 || dev.block_size < SUPERBLOCK_SIZE ==> r == Err::<
                BlockFS,
                BlockFSError,
            >(BlockFSError::SuperBlockInvalid),
            dev@.len() > 0 && dev.block_size >= SUPERBLOCK_SIZE && !sb_of(dev@).valid() ==> r
                == Err::<BlockFS, BlockFSError>(BlockFSError::SuperBlockInvalid),
            dev@.len() > 0 && dev.block_size >= SUPERBLOCK_SIZE && sb_of(dev@).valid() && !(sb_of(
                dev@,
            ).block_size == dev.block_size && sb_of(dev@).nblocks == dev.nblocks) ==> r == Err::<
                BlockFS,
                BlockFSError,
            >(BlockFSError::DeviceConfigurationInvalid),
            dev@.len() > 0 && dev.block_size >= SUPERBLOCK_SIZE && sb_of(dev@).valid() && sb_of(
                dev@,
            ).block_size == dev.block_size && sb_of(dev@).nblocks == dev.nblocks ==> (r matches Ok(
                fs,
            ) && fs@ == dev@ && fs.wf() && fs.device.block_size == dev.block_size
                && fs.device.nblocks == dev.nblocks),
    {
        let block_at_zero = match dev.read_block(0) {
            Ok(b) => b,
            Err(_) => {
                return Err(BlockFSError::SuperBlockInvalid);
            },
        };
        if (block_at_zero.len() as u64) < SUPERBLOCK_SIZE {
            return Err(BlockFSError::SuperBlockInvalid);
        }
        let superblock = decode_superblock(block_at_zero.contents_as_ref());
        proof {
            assert(dev@[0].subrange(0, SUPERBLOCK_SIZE as int).subrange(
                0,
                SUPERBLOCK_SIZE as int,
            ) =~= dev@[0].subrange(0, SUPERBLOCK_SIZE as int));
            lemma_sb_of_bytes_prefix_eq(
                dev@[0],
                dev@[0].subrange(0, SUPERBLOCK_SIZE as int),
            );
        }
        if !superblock_valid(&superblock) {
            return Err(BlockFSError::SuperBlockInvalid);
        }
        if !(superblock.block_size == dev.block_size && superblock.nblocks == dev.nblocks) {
            return Err(BlockFSError::DeviceConfigurationInvalid);
        }
        Ok(BlockFS { device: dev })
    }

    /// Release the filesystem and hand the device back to the caller.
    pub fn unmountfs(self) -> (d: Device)
        ensures
            d == self.device,
    {
        self.device
    }

    /// Read and decode the superblock from block 0.
    pub fn sup_get(&self) -> (r: Result<SuperBlock, BlockFSError>)
        ensures
            self@.len() > 0 && self@[0].len() >= SUPERBLOCK_SIZE ==> r == Ok::<
                SuperBlock,
                BlockFSError,
            >(self.sb()),
            self@.len() == 0 ==> r == Err::<SuperBlock, BlockFSError>(
                BlockFSError::FileSystemError(DeviceError::BlockOutOfRange),
            ),
            self@.len() > 0 && self@[0].len() < SUPERBLOCK_SIZE ==> r == Err::<
                SuperBlock,
                BlockFSError,
            >(BlockFSError::FileSystemError(DeviceError::OffsetOutOfRange)),
    {
        let block = match self.device.read_block(0) {
            Ok(b) => b,
            Err(e) => {
                return Err(BlockFSError::FileSystemError(e));
            },
        };
        if (block.len() as u64) < SUPERBLOCK_SIZE {
            return Err(BlockFSError::FileSystemError(DeviceError::OffsetOutOfRange));
        }
        let superblock = decode_superblock(block.contents_as_ref());
        proof {
            assert(self@[0].subrange(0, SUPERBLOCK_SIZE as int).subrange(
                0,
                SUPERBLOCK_SIZE as int,
            ) =~= self@[0].subrange(0, SUPERBLOCK_SIZE as int));
            lemma_sb_of_bytes_prefix_eq(
                self@[0],
                self@[0].subrange(0, SUPERBLOCK_SIZE as int),
            );
        }
        Ok(superblock)
    }

    /// Serialize `sup` into a zeroed block and write it at block 0.
    /// The stored superblock afterwards is exactly `sup`; whether the
    /// result is still a well-formed filesystem depends on `sup`.
    pub fn sup_put(&mut self, sup: &SuperBlock) -> (r: Result<(), BlockFSError>)
        requires
            sup.block_size <= usize::MAX,
        ensures
            final(self).device.block_size == old(self).device.block_size,
            final(self).device.nblocks == old(self).device.nblocks,
            sup.block_size < SUPERBLOCK_SIZE ==> r == Err::<(), BlockFSError>(
                BlockFSError::FileSystemError(DeviceError::OffsetOutOfRange),
            ) && final(self)@ == old(self)@,
            sup.block_size >= SUPERBLOCK_SIZE && old(self)@.len() == 0 ==> r == Err::<
                (),
                BlockFSError,
            >(BlockFSError::FileSystemError(DeviceError::BlockOutOfRange)) && final(self)@ == old(
                self,
            )@,
            sup.block_size >= SUPERBLOCK_SIZE && old(self)@.len() > 0 && sup.block_size != old(
                self,
            ).device.block_size ==> r == Err::<(), BlockFSError>(
                BlockFSError::FileSystemError(DeviceError::BlockSizeMismatch),
            ) && final(self)@ == old(self)@,
            sup.block_size >= SUPERBLOCK_SIZE && old(self)@.len() > 0 && sup.block_size == old(
                self,
            ).device.block_size ==> r == Ok::<(), BlockFSError>(()) && final(self)@ == old(
                self,
            )@.update(0, final(self)@[0]) && sb_of(final(self)@) == *sup && (forall|i: int|
                0 < i < old(self)@.len() ==> final(self)@[i] == old(self)@[i]),
    {
        let mut block = Block::new_zero(0, sup.block_size);
        let enc = encode_superblock(sup);
        match block.write_data(&enc, 0) {
            Ok(_) => {},
            Err(e) => {
                return Err(BlockFSError::FileSystemError(e));
            },
        }
        match self.device.write_block(&block) {
            Ok(_) => {},
            Err(e) => {
                return Err(BlockFSError::FileSystemError(e));
            },
        }
        proof {
            assert(final(self)@ == old(self)@.update(0, block@));
            assert(block@.subrange(0, SUPERBLOCK_SIZE as int) =~= enc@.subrange(
                0,
                SUPERBLOCK_SIZE as int,
            ));
            lemma_sb_of_bytes_prefix_eq(block@, enc@);
            assert(sb_of(final(self)@) == *sup);
        }
        Ok(())
    }

    /// Read block `i` as a whole.
    pub fn b_get(&self, i: u64) -> (r: Result<Block, BlockFSError>)
        ensures
            i < self@.len() ==> (r matches Ok(b) && b.block_no == i && b@ == self@[i as int]),
            i >= self@.len() ==> r == Err::<Block, BlockFSError>(
                BlockFSError::FileSystemError(DeviceError::BlockOutOfRange),
            ),
    {
        match self.device.read_block(i) {
            Ok(b) => Ok(b),
            Err(e) => Err(BlockFSError::FileSystemError(e)),
        }
    }

    /// Write `b` back to block `b.block_no` as a whole.  Writing any block
    /// other than block 0 keeps the filesystem well formed; writing a data
    /// block leaves the inode table and the bitmap untouched.
    pub fn b_put(&mut self, b: &Block) -> (r: Result<(), BlockFSError>)
        ensures
            final(self).device.block_size == old(self).device.block_size,
            final(self).device.nblocks == old(self).device.nblocks,
            b.block_no < old(self)@.len() && b@.len() == old(self).device.block_size ==> r == Ok::<
                (),
                BlockFSError,
            >(()) && final(self)@ == old(self)@.update(b.block_no as int, b@),
            b.block_no >= old(self)@.len() ==> r == Err::<(), BlockFSError>(
                BlockFSError::FileSystemError(DeviceError::BlockOutOfRange),
            ) && final(self)@ == old(self)@,
            b.block_no < old(self)@.len() && b@.len() != old(self).device.block_size ==> r
                == Err::<(), BlockFSError>(
                BlockFSError::FileSystemError(DeviceError::BlockSizeMismatch),
            ) && final(self)@ == old(self)@,
            old(self).wf() && b.block_no != 0 && r is Ok ==> final(self).wf() && final(self).sb()
                == old(self).sb(),
            old(self).wf() && old(self).sb().datastart <= b.block_no && b.block_no < old(
                self,
            ).sb().datastart + old(self).sb().ndatablocks && r is Ok ==> same_inodes(
                old(self)@,
                final(self)@,
            ) && same_bits(old(self)@, final(self)@) && same_data_except(
                old(self)@,
                final(self)@,
                b.block_no - old(self).sb().datastart,
            ) && data_block(final(self)@, b.block_no - old(self).sb().datastart) == b@,
    {
        let r = match self.device.write_block(b) {
            Ok(_) => Ok(()),
            Err(e) => Err(BlockFSError::FileSystemError(e)),
        };
        proof {
            let d0 = old(self)@;
            let d1 = self@;
            let sb = sb_of(d0);
            if old(self).wf() && b.block_no != 0 && r is Ok {
                assert(d1[0] == d0[0]);
                assert(sb_of(d1) == sb);
                assert(disk_wf(d1));
            }
            if old(self).wf() && sb.datastart <= b.block_no < sb.datastart + sb.ndatablocks
                && r is Ok {
                assert forall|k: int| 0 <= k < sb.ninodes implies #[trigger] inode_v(d1, k)
                    == inode_v(d0, k) by {
                    lemma_inode_slot_in_range(sb, k);
                    assert(d1[inode_block(sb, k)] == d0[inode_block(sb, k)]);
                }
                assert forall|i: int| 0 <= i < sb.ndatablocks implies #[trigger] bit_of(d1, i)
                    == bit_of(d0, i) by {
                    lemma_bit_in_range(sb, i);
                    assert(d1[bit_block(sb, i)] == d0[bit_block(sb, i)]);
                }
            }
        }
        r
    }
}


/// Writing one byte of one bitmap block back to the disk changes nothing
/// but the bits of that byte: the superblock, the inode table and the
/// data region are untouched, and every bit outside the byte's own bit
/// keeps its value.
proof fn lemma_bitmap_write_frame(
    d0: Seq<Seq<u8>>,
    d1: Seq<Seq<u8>>,
    sb: SuperBlock,
    g: int,
    oldbyte: u8,
    newbyte: u8,
)
    requires
        disk_wf(d0),
        sb == sb_of(d0),
        0 <= g < sb.ndatablocks,
        oldbyte == d0[bit_block(sb, g)][bit_byte(sb, g)],
        d1 == d0.update(
            bit_block(sb, g),
            d0[bit_block(sb, g)].update(bit_byte(sb, g), newbyte),
        ),
        forall|k2: u8|
            k2 < 8 && k2 != (g % 8) as u8 ==> #[trigger] nth_bit(newbyte, k2) == nth_bit(
                oldbyte,
                k2,
            ),
    ensures
        sb_of(d1) == sb,
        disk_wf(d1),
        d1.len() == d0.len(),
        same_inodes(d0, d1),
        same_data(d0, d1),
        same_bits_except(d0, d1, g),
        bit_of(d1, g) == nth_bit(newbyte, (g % 8) as u8),
{
    let bb = bit_block(sb, g);
    let by = bit_byte(sb, g);
    lemma_bit_in_range(sb, g);
    assert(d1[0] == d0[0]);
    assert(sb_of(d1) == sb);
    assert(d1[bb].len() == d0[bb].len());
    assert(disk_wf(d1));
    assert forall|k: int| 0 <= k < sb.ninodes implies #[trigger] inode_v(d1, k) == inode_v(
        d0,
        k,
    ) by {
        lemma_inode_slot_in_range(sb, k);
        assert(d1[inode_block(sb, k)] == d0[inode_block(sb, k)]);
    }
    assert forall|j: int| 0 <= j < sb.ndatablocks implies #[trigger] data_block(d1, j)
        == data_block(d0, j) by {}
    assert forall|m: int| 0 <= m < sb.ndatablocks && m != g implies #[trigger] bit_of(d1, m)
        == bit_of(d0, m) by {
        lemma_bit_in_range(sb, m);
        if bit_block(sb, m) != bb {
            assert(d1[bit_block(sb, m)] == d0[bit_block(sb, m)]);
        } else if bit_byte(sb, m) != by {
            assert(d1[bb][bit_byte(sb, m)] == d0[bb][bit_byte(sb, m)]);
        } else {
            if m % 8 == g % 8 {
                lemma_bit_coords_unique(sb, m, g);
                assert(false);
            }
            assert(d1[bb][by] == newbyte);
            assert(((m % 8) as u8) < 8);
            assert((m % 8) as u8 != (g % 8) as u8);
            assert(nth_bit(newbyte, (m % 8) as u8) == nth_bit(oldbyte, (m % 8) as u8));
        }
    }
    assert(d1[bb][by] == newbyte);
}


impl BlockFS {
    /// Write a fully zeroed block at data-relative index `i`, absolute
    /// block `datastart + i`.  Fails iff `i` is outside the data region.
    pub fn b_zero(&mut self, i: u64) -> (r: Result<(), BlockFSError>)
        requires
            old(self).wf(),
        ensures
            final(self).wf(),
            final(self).device.block_size == old(self).device.block_size,
            final(self).device.nblocks == old(self).device.nblocks,
            final(self).sb() == old(self).sb(),
            same_inodes(old(self)@, final(self)@),
            same_bits(old(self)@, final(self)@),
            i >= old(self).sb().ndatablocks ==> r == Err::<(), BlockFSError>(
                BlockFSError::OutsideOfTheBoundariesError,
            ) && final(self)@ == old(self)@,
            i < old(self).sb().ndatablocks ==> r == Ok::<(), BlockFSError>(()) && data_block(
                final(self)@,
                i as int,
            ) == zeros(old(self).sb().block_size as int) && same_data_except(
                old(self)@,
                final(self)@,
                i as int,
            ),
    {
        let sb = match self.sup_get() {
            Ok(s) => s,
            Err(e) => {
                proof {
                    assert(false);
                }
                return Err(e);
            },
        };
        if i >= sb.ndatablocks {
            return Err(BlockFSError::OutsideOfTheBoundariesError);
        }
        let zero_data_block = Block::new_zero(i + sb.datastart, sb.block_size);
        match self.b_put(&zero_data_block) {
            Ok(_) => Ok(()),
            Err(e) => {
                proof {
                    assert(false);
                }
                Err(e)
            },
        }
    }

    /// Clear the allocation bit of data block `i` (data-relative).  Fails
    /// with `OutsideOfTheBoundariesError` beyond the data region and with
    /// `MemoryAlreadyDeallocated` if the bit is already clear.  The data
    /// block itself is not zeroed.
    pub fn b_free(&mut self, i: u64) -> (r: Result<(), BlockFSError>)
        requires
            old(self).wf(),
        ensures
            final(self).wf(),
            final(self).device.block_size == old(self).device.block_size,
            final(self).device.nblocks == old(self).device.nblocks,
            final(self).sb() == old(self).sb(),
            same_inodes(old(self)@, final(self)@),
            same_data(old(self)@, final(self)@),
            i >= old(self).sb().ndatablocks ==> r == Err::<(), BlockFSError>(
                BlockFSError::OutsideOfTheBoundariesError,
            ) && final(self)@ == old(self)@,
            i < old(self).sb().ndatablocks && !bit_of(old(self)@, i as int) ==> r == Err::<
                (),
                BlockFSError,
            >(BlockFSError::MemoryAlreadyDeallocated) && final(self)@ == old(self)@,
            i < old(self).sb().ndatablocks && bit_of(old(self)@, i as int) ==> r == Ok::<
                (),
                BlockFSError,
            >(()) && !bit_of(final(self)@, i as int) && same_bits_except(
                old(self)@,
                final(self)@,
                i as int,
            ),
    {
        let sb = match self.sup_get() {
            Ok(s) => s,
            Err(e) => {
                proof {
                    assert(false);
                }
                return Err(e);
            },
        };
        if i >= sb.ndatablocks {
            return Err(BlockFSError::OutsideOfTheBoundariesError);
        }
        proof {
            lemma_bit_in_range(sb, i as int);
        }
        let bpb: u64 = 8 * sb.block_size;
        let bitmap_block_number: u64 = i / bpb;
        let mut current_block = match self.b_get(sb.bmapstart + bitmap_block_number) {
            Ok(b) => b,
            Err(e) => {
                proof {
                    assert(false);
                }
                return Err(e);
            },
        };
        let byte_index: usize = ((i % bpb) / 8) as usize;
        let k: u8 = (i % 8) as u8;
        let byte: u8 = current_block.contents_as_ref()[byte_index];
        proof {
            lemma_bit_test(byte, k);
        }
        if byte & (1u8 << k) == 0 {
            return Err(BlockFSError::MemoryAlreadyDeallocated);
        }
        let new_byte: u8 = byte ^ (1u8 << k);
        proof {
            assert(new_byte == byte & !(1u8 << k)) by (bit_vector)
                requires
                    k < 8,
                    (byte & (1u8 << k)) != 0,
                    new_byte == byte ^ (1u8 << k),
            ;
            lemma_bit_clear(byte, k);
        }
        current_block.data.set(byte_index, new_byte);
        let ghost d0 = self@;
        match self.b_put(&current_block) {
            Ok(_) => {},
            Err(e) => {
                proof {
                    assert(false);
                }
                return Err(e);
            },
        }
        proof {
            assert(self@ == d0.update(
                bit_block(sb, i as int),
                d0[bit_block(sb, i as int)].update(bit_byte(sb, i as int), new_byte),
            ));
            lemma_bitmap_write_frame(d0, self@, sb, i as int, byte, new_byte);
        }
        Ok(())
    }

    /// First-fit allocation of a data block: find the smallest clear bit
    /// in the bitmap, set it, zero the corresponding data block, and
    /// return its data-relative index.  Fails iff every data block is
    /// allocated.
    #[verifier::rlimit(60)]
    pub fn b_alloc(&mut self) -> (r: Result<u64, BlockFSError>)
        requires
            old(self).wf(),
        ensures
            final(self).wf(),
            final(self).device.block_size == old(self).device.block_size,
            final(self).device.nblocks == old(self).device.nblocks,
            final(self).sb() == old(self).sb(),
            same_inodes(old(self)@, final(self)@),
            r matches Err(e) ==> e == BlockFSError::OutsideOfTheBoundariesError && final(self)@
                == old(self)@ && (forall|m: int|
                0 <= m < old(self).sb().ndatablocks ==> #[trigger] bit_of(old(self)@, m)),
            r matches Ok(g) ==> {
                &&& g < old(self).sb().ndatablocks
                &&& !bit_of(old(self)@, g as int)
                &&& forall|m: int| 0 <= m < g ==> #[trigger] bit_of(old(self)@, m)
                &&& bit_of(final(self)@, g as int)
                &&& same_bits_except(old(self)@, final(self)@, g as int)
                &&& data_block(final(self)@, g as int) == zeros(
                    old(self).sb().block_size as int,
                )
                &&& same_data_except(old(self)@, final(self)@, g as int)
            },
    {
        let sb = match self.sup_get() {
            Ok(s) => s,
            Err(e) => {
                proof {
                    assert(false);
                }
                return Err(e);
            },
        };
        let bpb: u64 = 8 * sb.block_size;
        let nd: u64 = sb.ndatablocks;
        let n_bitmap_blocks: u64 = nd / bpb + if nd % bpb == 0 {
            0
        } else {
            1
        };
        let ghost d0 = self@;
        let mut bi: u64 = 0;
        while bi < n_bitmap_blocks
            invariant
                self.wf(),
                self@ == d0,
                d0 == old(self)@,
                sb == self.sb(),
                sb.valid(),
                bpb == 8 * sb.block_size,
                nd == sb.ndatablocks,
                n_bitmap_blocks == sb.n_bitmap_blocks(),
                bi <= n_bitmap_blocks,
                forall|m: int| 0 <= m < bi * bpb && m < nd ==> #[trigger] bit_of(d0, m),
                self.device.block_size == old(self).device.block_size,
                self.device.nblocks == old(self).device.nblocks,
            decreases n_bitmap_blocks - bi,
        {
            proof {
                crate::layout::lemma_ceil_bounds(nd as int, bpb as int);
                assert(bi * bpb <= (n_bitmap_blocks - 1) * bpb) by (nonlinear_arith)
                    requires
                        bi < n_bitmap_blocks,
                        bpb > 0,
                ;
            }
            let current_block = match self.b_get(sb.bmapstart + bi) {
                Ok(b) => b,
                Err(e) => {
                    proof {
                        assert(false);
                    }
                    return Err(BlockFSError::OutsideOfTheBoundariesError);
                },
            };
            let mut current_block = current_block;
            let block_len: usize = current_block.len();
            let mut j: usize = 0;
            while j < block_len
                invariant
                    self.wf(),
                    self@ == d0,
                    d0 == old(self)@,
                    sb == self.sb(),
                    sb.valid(),
                    bpb == 8 * sb.block_size,
                    nd == sb.ndatablocks,
                    n_bitmap_blocks == sb.n_bitmap_blocks(),
                    bi < n_bitmap_blocks,
                    bi * bpb <= nd,
                    j <= block_len,
                    block_len == sb.block_size,
                    current_block@ == d0[sb.bmapstart + bi],
                    current_block.block_no == sb.bmapstart + bi,
                    current_block@.len() == block_len,
                    forall|m: int| 0 <= m < bi * bpb + 8 * j && m < nd ==> #[trigger] bit_of(d0, m),
                    self.device.block_size == old(self).device.block_size,
                    self.device.nblocks == old(self).device.nblocks,
                decreases block_len - j,
            {
                let byte: u8 = current_block.byte_at(j);
                if byte != 0xff {
                    let mut k: u8 = 0;
                    while k < 8 && (byte & (1u8 << k)) != 0
                        invariant
                            k <= 8,
                            forall|k2: u8| k2 < k ==> #[trigger] (byte & (1u8 << k2)) != 0,
                        decreases 8 - k,
                    {
                        k = k + 1;
                    }
                    if k >= 8 {
                        proof {
                            assert((byte & (1u8 << 0u8)) != 0);
                            assert((byte & (1u8 << 1u8)) != 0);
                            assert((byte & (1u8 << 2u8)) != 0);
                            assert((byte & (1u8 << 3u8)) != 0);
                            assert((byte & (1u8 << 4u8)) != 0);
                            assert((byte & (1u8 << 5u8)) != 0);
                            assert((byte & (1u8 << 6u8)) != 0);
                            assert((byte & (1u8 << 7u8)) != 0);
                            lemma_all_bits_full(byte);
                            assert(false);
                        }
                        return Err(BlockFSError::OutsideOfTheBoundariesError);
                    }
                    proof {
                        lemma_bit_test(byte, k);
                        assert(!nth_bit(byte, k));
                        lemma_bit_coords_of(sb, bi as int, j as int, k as int);
                    }
                    let g: u64 = bi * bpb + 8 * (j as u64) + (k as u64);
                    proof {
                        assert forall|m: int| 0 <= m < g && m < nd implies #[trigger] bit_of(
                            d0,
                            m,
                        ) by {
                            let base = bi * bpb + 8 * j;
                            if m >= base {
                                let k2 = m - base;
                                lemma_bit_coords_of(sb, bi as int, j as int, k2);
                                assert((byte & (1u8 << (k2 as u8))) != 0);
                                lemma_bit_test(byte, k2 as u8);
                            }
                        }
                    }
                    if g >= nd {
                        return Err(BlockFSError::OutsideOfTheBoundariesError);
                    }
                    let new_byte: u8 = byte | (1u8 << k);
                    proof {
                        lemma_bit_set(byte, k);
                    }
                    current_block.data.set(j, new_byte);
                    let ghost dmid0 = self@;
                    match self.b_put(&current_block) {
                        Ok(_) => {},
                        Err(e) => {
                            proof {
                                assert(false);
                            }
                            return Err(BlockFSError::OutsideOfTheBoundariesError);
                        },
                    }
                    proof {
                        assert(self@ == dmid0.update(
                            bit_block(sb, g as int),
                            dmid0[bit_block(sb, g as int)].update(bit_byte(sb, g as int), new_byte),
                        ));
                        lemma_bitmap_write_frame(dmid0, self@, sb, g as int, byte, new_byte);
                        assert(bit_of(self@, g as int));
                    }
                    let ghost dmid = self@;
                    match self.b_zero(g) {
                        Ok(_) => {},
                        Err(e) => {
                            proof {
                                assert(false);
                            }
                            return Err(BlockFSError::OutsideOfTheBoundariesError);
                        },
                    }
                    proof {
                        assert(bit_of(self@, g as int) == bit_of(dmid, g as int));
                        assert forall|m: int| 0 <= m < nd && m != g implies #[trigger] bit_of(
                            self@,
                            m,
                        ) == bit_of(d0, m) by {
                            assert(bit_of(self@, m) == bit_of(dmid, m));
                            assert(bit_of(dmid, m) == bit_of(d0, m));
                        }
                        assert forall|jj: int| 0 <= jj < nd && jj != g implies #[trigger]
                        data_block(self@, jj) == data_block(d0, jj) by {
                            assert(data_block(self@, jj) == data_block(dmid, jj));
                            assert(data_block(dmid, jj) == data_block(d0, jj));
                        }
                        assert forall|kk: int| 0 <= kk < sb.ninodes implies #[trigger] inode_v(
                            self@,
                            kk,
                        ) == inode_v(d0, kk) by {
                            assert(inode_v(self@, kk) == inode_v(dmid, kk));
                            assert(inode_v(dmid, kk) == inode_v(d0, kk));
                        }
                    }
                    return Ok(g);
                }
                proof {
                    lemma_byte_all_ones(byte);
                    assert forall|m: int| 0 <= m < bi * bpb + 8 * (j + 1) && m < nd implies #[trigger]
                    bit_of(d0, m) by {
                        let base = bi * bpb + 8 * j;
                        if m >= base {
                            let k2 = m - base;
                            lemma_bit_coords_of(sb, bi as int, j as int, k2);
                            assert(nth_bit(byte, k2 as u8));
                        }
                    }
                }
                j = j + 1;
            }
            proof {
                assert(bi * bpb + 8 * block_len == (bi + 1) * bpb) by (nonlinear_arith)
                    requires
                        bpb == 8 * sb.block_size,
                        block_len == sb.block_size,
                ;
            }
            bi = bi + 1;
        }
        proof {
            crate::layout::lemma_ceil_bounds(nd as int, bpb as int);
            assert(nd <= n_bitmap_blocks * bpb);
        }
        Err(BlockFSError::OutsideOfTheBoundariesError)
    }
}


/// First-fit allocation is deterministic: on a disk whose allocated bits
/// are exactly `0 .. k`, a successful allocation returns exactly `k`, and
/// the allocated bits afterwards are exactly `0 .. k + 1`.
pub proof fn lemma_alloc_is_sequential(
    d0: Seq<Seq<u8>>,
    d1: Seq<Seq<u8>>,
    sb: SuperBlock,
    k: int,
    g: u64,
)
    requires
        sb == sb_of(d0),
        sb_of(d1) == sb,
        0 <= k < sb.ndatablocks,
        forall|m: int| 0 <= m < k ==> #[trigger] bit_of(d0, m),
        forall|m: int| k <= m < sb.ndatablocks ==> !(#[trigger] bit_of(d0, m)),
        // what a successful allocation ensures
        g < sb.ndatablocks,
        !bit_of(d0, g as int),
        forall|m: int| 0 <= m < g ==> #[trigger] bit_of(d0, m),
        bit_of(d1, g as int),
        same_bits_except(d0, d1, g as int),
    ensures
        g == k,
        forall|m: int| 0 <= m < k + 1 ==> #[trigger] bit_of(d1, m),
        forall|m: int| k + 1 <= m < sb.ndatablocks ==> !(#[trigger] bit_of(d1, m)),
{
    if g < k {
        assert(bit_of(d0, g as int));
        assert(false);
    }
    if k < g {
        assert(bit_of(d0, k));
        assert(false);
    }
}

/// A freed bit is reused first when it is the smallest free bit: after
/// allocating `g`, freeing `g`, and allocating again, the second
/// allocation returns `g` again.
pub proof fn lemma_alloc_free_alloc(
    d0: Seq<Seq<u8>>,
    d1: Seq<Seq<u8>>,
    d2: Seq<Seq<u8>>,
    sb: SuperBlock,
    g: u64,
    g2: u64,
)
    requires
        sb == sb_of(d0),
        sb_of(d1) == sb,
        sb_of(d2) == sb,
        // what the first allocation ensured
        g < sb.ndatablocks,
        !bit_of(d0, g as int),
        forall|m: int| 0 <= m < g ==> #[trigger] bit_of(d0, m),
        bit_of(d1, g as int),
        same_bits_except(d0, d1, g as int),
        // what freeing `g` ensured
        !bit_of(d2, g as int),
        same_bits_except(d1, d2, g as int),
        // what the second allocation ensures about its result
        g2 < sb.ndatablocks,
        !bit_of(d2, g2 as int),
        forall|m: int| 0 <= m < g2 ==> #[trigger] bit_of(d2, m),
    ensures
        g2 == g,
{
    if g2 < g {
        assert(bit_of(d2, g2 as int) == bit_of(d1, g2 as int));
        assert(bit_of(d1, g2 as int) == bit_of(d0, g2 as int));
        assert(bit_of(d0, g2 as int));
        assert(false);
    }
    if g < g2 {
        assert(bit_of(d2, g as int));
        assert(false);
    }
}

/// A freshly allocated data block reads back fully zeroed: allocation
/// leaves the block zeroed, and reading it returns the stored bytes.
pub proof fn lemma_alloc_then_get_zeroed(d: Seq<Seq<u8>>, sb: SuperBlock, g: u64)
    requires
        sb == sb_of(d),
        sb.valid(),
        0 <= g < sb.ndatablocks,
        data_block(d, g as int) == zeros(sb.block_size as int),
    ensures
        d[sb.datastart + g] == zeros(sb.block_size as int),
{
}

} // verus!
