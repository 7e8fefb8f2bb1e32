//! The inode layer: packed on-disk inodes addressed by inode number, with
//! an allocate / free lifecycle and truncation, built on the block layer.

use vstd::prelude::*;
use vstd::arithmetic::div_mod::lemma_fundamental_div_mod_converse;
use crate::block::{fresh_disk, BlockFS, BlockFSError};
use crate::bytes::{splice, zeros};
use crate::device::{Block, Device, DeviceError};
use crate::disk::{
    bit_of, data_block, disk_wf, inode_block, inode_offset, inode_v, lemma_inode_slot_in_range,
    same_bits, same_bits_except, same_data, same_data_except, same_inodes, same_inodes_except,
    sb_of,
};
use crate::layout::{
    ceil_div, decode_dinode, dinode_default, dinode_of, encode_dinode, lemma_valid_regions_disjoint,
    DInode, DInodeV, FType, Inode, SuperBlock, DINODE_SIZE, NDIRECT,
};

verus! {

/// An error of the inode layer.
#[derive(Clone, Copy, Debug, PartialEq, Eq, Structural)]
pub enum InodeFSError {
    /// An error propagated from the block device.
    DeviceSystemError(DeviceError),
    /// An error propagated from the block layer.
    InodeSystemError(BlockFSError),
    /// An inode in an unexpected state.
    InodeInitializationError,
    /// Freeing an inode that is already free.
    InodeAlreadyDeallocatedError,
}

/// Number of data blocks an inode's content occupies.
pub open spec fn nvalid_of(sb: SuperBlock, di: DInodeV) -> int {
    ceil_div(di.size as int, sb.block_size as int)
}

/// Whether one of the first `t_bound` direct pointers of `di` addresses
/// the data block with data-relative index `m`.
pub open spec fn freed_by(sb: SuperBlock, di: DInodeV, t_bound: int, m: int) -> bool {
    exists|t: int| 0 <= t < t_bound && #[trigger] di.direct[t] == sb.datastart + m
}

/// The direct pointers of `di` can all be released: the content fits in
/// the direct block list, every nonzero pointer addresses an allocated
/// data block, and no data block is claimed twice.
pub open spec fn free_ok(sb: SuperBlock, d: Seq<Seq<u8>>, di: DInodeV) -> bool {
    &&& nvalid_of(sb, di) <= NDIRECT
    &&& forall|t: int|
        0 <= t < nvalid_of(sb, di) ==> (#[trigger] di.direct[t]) == 0 || (sb.datastart
            <= di.direct[t] < sb.datastart + sb.ndatablocks && bit_of(
            d,
            di.direct[t] - sb.datastart,
        ))
    &&& forall|t1: int, t2: int|
        0 <= t1 < t2 < nvalid_of(sb, di) && #[trigger] di.direct[t1] != 0 ==> di.direct[t1]
            != #[trigger] di.direct[t2]
}

/// An inode number is determined by its block and offset coordinates.
proof fn lemma_inode_coords_unique(sb: SuperBlock, k1: int, k2: int)
    requires
        sb.valid(),
        0 <= k1,
        0 <= k2,
        inode_block(sb, k1) == inode_block(sb, k2),
        inode_offset(sb, k1) == inode_offset(sb, k2),
    ensures
        k1 == k2,
{
    let ipb = sb.ipb();
    assert(ipb >= 1) by (nonlinear_arith)
        requires
            DINODE_SIZE <= sb.block_size,
            ipb == sb.block_size as int / DINODE_SIZE as int,
    ;
    assert(k1 == (k1 / ipb) * ipb + k1 % ipb && k2 == (k2 / ipb) * ipb + k2 % ipb) by (
    nonlinear_arith)
        requires
            ipb >= 1,
            k1 >= 0,
            k2 >= 0,
    ;
    assert(k1 % ipb == k2 % ipb) by (nonlinear_arith)
        requires
            DINODE_SIZE * (k1 % ipb) == DINODE_SIZE * (k2 % ipb),
    ;
}

/// Splicing one encoded inode record into its slot changes that inode
/// alone: the superblock, every other inode, the bitmap and the data
/// region all read back unchanged.
proof fn lemma_inode_write_frame(
    d0: Seq<Seq<u8>>,
    d1: Seq<Seq<u8>>,
    sb: SuperBlock,
    k0: int,
    enc: Seq<u8>,
)
    requires
        disk_wf(d0),
        sb == sb_of(d0),
        0 <= k0 < sb.ninodes,
        enc.len() == DINODE_SIZE,
        d1 == d0.update(
            inode_block(sb, k0),
            splice(d0[inode_block(sb, k0)], inode_offset(sb, k0), enc),
        ),
    ensures
        sb_of(d1) == sb,
        disk_wf(d1),
        d1.len() == d0.len(),
        inode_v(d1, k0) == dinode_of(enc),
        same_inodes_except(d0, d1, k0),
        same_bits(d0, d1),
        same_data(d0, d1),
{
    let ib = inode_block(sb, k0);
    let off = inode_offset(sb, k0);
    lemma_inode_slot_in_range(sb, k0);
    assert(d1[0] == d0[0]);
    assert(sb_of(d1) == sb);
    assert(d1[ib].len() == d0[ib].len());
    assert(disk_wf(d1));
    assert(d1[ib].subrange(off, off + DINODE_SIZE) =~= enc);
    assert(inode_v(d1, k0) == dinode_of(enc));
    assert forall|k: int| 0 <= k < sb.ninodes && k != k0 implies #[trigger] inode_v(d1, k)
        == inode_v(d0, k) by {
        lemma_inode_slot_in_range(sb, k);
        if inode_block(sb, k) != ib {
            assert(d1[inode_block(sb, k)] == d0[inode_block(sb, k)]);
        } else {
            let offk = inode_offset(sb, k);
            if offk == off {
                lemma_inode_coords_unique(sb, k, k0);
                assert(false);
            }
            assert(offk + DINODE_SIZE <= off || off + DINODE_SIZE <= offk) by (nonlinear_arith)
                requires
                    offk == DINODE_SIZE * (k % sb.ipb()),
                    off == DINODE_SIZE * (k0 % sb.ipb()),
                    offk != off,
            ;
            assert(d1[ib].subrange(offk, offk + DINODE_SIZE) =~= d0[ib].subrange(
                offk,
                offk + DINODE_SIZE,
            ));
        }
    }
    assert forall|i: int| 0 <= i < sb.ndatablocks implies #[trigger] bit_of(d1, i) == bit_of(
        d0,
        i,
    ) by {
        crate::disk::lemma_bit_in_range(sb, i);
        assert(d1[crate::disk::bit_block(sb, i)] == d0[crate::disk::bit_block(sb, i)]);
    }
    assert forall|j: int| 0 <= j < sb.ndatablocks implies #[trigger] data_block(d1, j)
        == data_block(d0, j) by {}
}

/// The inode-layer filesystem: the block layer plus the packed inode
/// table.
pub struct InodeFS {
    /// The underlying block layer.
    pub fs: BlockFS,
}

impl View for InodeFS {
    type V = Seq<Seq<u8>>;

    open spec fn view(&self) -> Seq<Seq<u8>> {
        self.fs@
    }
}

impl InodeFS {
    /// The filesystem is well formed when the block layer is.
    pub open spec fn wf(self) -> bool {
        self.fs.wf()
    }

    /// The superblock stored in block 0.
    pub open spec fn sb(self) -> SuperBlock {
        self.fs.sb()
    }

    /// Whether `sb` satisfies all layout invariants.
    pub fn sb_valid(sb: &SuperBlock) -> (r: bool)
        ensures
            r == sb.valid(),
    {
        BlockFS::sb_valid(sb)
    }

    /// Format a fresh zeroed device with the given superblock; every
    /// inode starts out free.
    pub fn mkfs(sb: &SuperBlock) -> (r: Result<InodeFS, InodeFSError>)
        ensures
            sb.valid() <==> r is Ok,
            !sb.valid() ==> r == Err::<InodeFS, InodeFSError>(
                InodeFSError::InodeSystemError(BlockFSError::SuperBlockInvalid),
            ),
            r matches Ok(fs) ==> {
                &&& fs.wf()
                &&& fs.fs.device.block_size == sb.block_size
                &&& fs.fs.device.nblocks == sb.nblocks
                &&& fresh_disk(fs@, *sb)
            },
    {
        match BlockFS::mkfs(sb) {
            Ok(fs) => Ok(InodeFS { fs }),
            Err(e) => Err(InodeFSError::InodeSystemError(e)),
        }
    }

    /// Mount an existing device, as the block layer does.
    pub fn mountfs(dev: Device) -> (r: Result<InodeFS, InodeFSError>)
        requires
            dev.wf(),
        ensures
            dev@.len() == 0 || dev.block_size < crate::layout::SUPERBLOCK_SIZE ==> r == Err::<
                InodeFS,
                InodeFSError,
            >(InodeFSError::InodeSystemError(BlockFSError::SuperBlockInvalid)),
            dev@.len() > 0 && dev.block_size >= crate::layout::SUPERBLOCK_SIZE && !sb_of(
                dev@,
            ).valid() ==> r == Err::<InodeFS, InodeFSError>(
                InodeFSError::InodeSystemError(BlockFSError::SuperBlockInvalid),
            ),
            dev@.len() > 0 && dev.block_size >= crate::layout::SUPERBLOCK_SIZE && sb_of(
                dev@,
            ).valid() && !(sb_of(dev@).block_size == dev.block_size && sb_of(dev@).nblocks
                == dev.nblocks) ==> r == Err::<InodeFS, InodeFSError>(
                InodeFSError::InodeSystemError(BlockFSError::DeviceConfigurationInvalid),
            ),
            dev@.len() > 0 && dev.block_size >= crate::layout::SUPERBLOCK_SIZE && sb_of(
                dev@,
            ).valid() && sb_of(dev@).block_size == dev.block_size && sb_of(dev@).nblocks
                == dev.nblocks ==> (r matches Ok(fs) && fs@ == dev@ && fs.wf()
                && fs.fs.device.block_size == dev.block_size && fs.fs.device.nblocks
                == dev.nblocks),
    {
        match BlockFS::mountfs(dev) {
            Ok(fs) => Ok(InodeFS { fs }),
            Err(e) => Err(InodeFSError::InodeSystemError(e)),
        }
    }

    /// Release the filesystem and hand the device back.
    pub fn unmountfs(self) -> (d: Device)
        ensures
            d == self.fs.device,
    {
        self.fs.unmountfs()
    }

    /// Read block `i` as a whole.
    pub fn b_get(&self, i: u64) -> (r: Result<Block, InodeFSError>)
        ensures
            i < self@.len() ==> (r matches Ok(b) && b.block_no == i && b@ == self@[i as int]),
            i >= self@.len() ==> r == Err::<Block, InodeFSError>(
                InodeFSError::InodeSystemError(
                    BlockFSError::FileSystemError(DeviceError::BlockOutOfRange),
                ),
            ),
    {
        match self.fs.b_get(i) {
            Ok(b) => Ok(b),
            Err(e) => Err(InodeFSError::InodeSystemError(e)),
        }
    }

    /// Write `b` back to block `b.block_no` as a whole.
    pub fn b_put(&mut self, b: &Block) -> (r: Result<(), InodeFSError>)
        ensures
            final(self).fs.device.block_size == old(self).fs.device.block_size,
            final(self).fs.device.nblocks == old(self).fs.device.nblocks,
            b.block_no < old(self)@.len() && b@.len() == old(self).fs.device.block_size ==> r
                == Ok::<(), InodeFSError>(()) && final(self)@ == old(self)@.update(
                b.block_no as int,
                b@,
            ),
            b.block_no >= old(self)@.len() ==> r == Err::<(), InodeFSError>(
                InodeFSError::InodeSystemError(
                    BlockFSError::FileSystemError(DeviceError::BlockOutOfRange),
                ),
            ) && final(self)@ == old(self)@,
            b.block_no < old(self)@.len() && b@.len() != old(self).fs.device.block_size ==> r
                == Err::<(), InodeFSError>(
                InodeFSError::InodeSystemError(
                    BlockFSError::FileSystemError(DeviceError::BlockSizeMismatch),
                ),
            ) && final(self)@ == old(self)@,
            old(self).wf() && b.block_no != 0 && r is Ok ==> final(self).wf() && final(self).sb()
                == old(self).sb(),
            old(self).wf() && old(self).sb().datastart <= b.block_no && b.block_no < old(
                self,
            ).sb().datastart + old(self).sb().ndatablocks && r is Ok ==> same_inodes(
                old(self)@,
                final(self)@,
            ) && same_bits(old(self)@, final(self)@) && same_data_except(
                old(self)@,
                final(self)@,
                b.block_no - old(self).sb().datastart,
            ) && data_block(final(self)@, b.block_no - old(self).sb().datastart) == b@,
    {
        match self.fs.b_put(b) {
            Ok(_) => Ok(()),
            Err(e) => Err(InodeFSError::InodeSystemError(e)),
        }
    }

    /// Clear the allocation bit of data block `i` (data-relative).
    pub fn b_free(&mut self, i: u64) -> (r: Result<(), InodeFSError>)
        requires
            old(self).wf(),
        ensures
            final(self).wf(),
            final(self).fs.device.block_size == old(self).fs.device.block_size,
            final(self).fs.device.nblocks == old(self).fs.device.nblocks,
            final(self).sb() == old(self).sb(),
            same_inodes(old(self)@, final(self)@),
            same_data(old(self)@, final(self)@),
            i >= old(self).sb().ndatablocks ==> r == Err::<(), InodeFSError>(
                InodeFSError::InodeSystemError(BlockFSError::OutsideOfTheBoundariesError),
            ) && final(self)@ == old(self)@,
            i < old(self).sb().ndatablocks && !bit_of(old(self)@, i as int) ==> r == Err::<
                (),
                InodeFSError,
            >(InodeFSError::InodeSystemError(BlockFSError::MemoryAlreadyDeallocated))
                && final(self)@ == old(self)@,
            i < old(self).sb().ndatablocks && bit_of(old(self)@, i as int) ==> r == Ok::<
                (),
                InodeFSError,
            >(()) && !bit_of(final(self)@, i as int) && same_bits_except(
                old(self)@,
                final(self)@,
                i as int,
            ),
    {
        match self.fs.b_free(i) {
            Ok(_) => Ok(()),
            Err(e) => Err(InodeFSError::InodeSystemError(e)),
        }
    }

    /// Write a fully zeroed block at data-relative index `i`.
    pub fn b_zero(&mut self, i: u64) -> (r: Result<(), InodeFSError>)
        requires
            old(self).wf(),
        ensures
            final(self).wf(),
            final(self).fs.device.block_size == old(self).fs.device.block_size,
            final(self).fs.device.nblocks == old(self).fs.device.nblocks,
            final(self).sb() == old(self).sb(),
            same_inodes(old(self)@, final(self)@),
            same_bits(old(self)@, final(self)@),
            i >= old(self).sb().ndatablocks ==> r == Err::<(), InodeFSError>(
                InodeFSError::InodeSystemError(BlockFSError::OutsideOfTheBoundariesError),
            ) && final(self)@ == old(self)@,
            i < old(self).sb().ndatablocks ==> r == Ok::<(), InodeFSError>(()) && data_block(
                final(self)@,
                i as int,
            ) == zeros(old(self).sb().block_size as int) && same_data_except(
                old(self)@,
                final(self)@,
                i as int,
            ),
    {
        match self.fs.b_zero(i) {
            Ok(_) => Ok(()),
            Err(e) => Err(InodeFSError::InodeSystemError(e)),
        }
    }

    /// First-fit allocation of a data block.
    pub fn b_alloc(&mut self) -> (r: Result<u64, InodeFSError>)
        requires
            old(self).wf(),
        ensures
            final(self).wf(),
            final(self).fs.device.block_size == old(self).fs.device.block_size,
            final(self).fs.device.nblocks == old(self).fs.device.nblocks,
            final(self).sb() == old(self).sb(),
            same_inodes(old(self)@, final(self)@),
            r matches Err(e) ==> e == InodeFSError::InodeSystemError(
                BlockFSError::OutsideOfTheBoundariesError,
            ) && final(self)@ == old(self)@ && (forall|m: int|
                0 <= m < old(self).sb().ndatablocks ==> #[trigger] bit_of(old(self)@, m)),
            r matches Ok(g) ==> {
                &&& g < old(self).sb().ndatablocks
                &&& !bit_of(old(self)@, g as int)
                &&& forall|m: int| 0 <= m < g ==> #[trigger] bit_of(old(self)@, m)
                &&& bit_of(final(self)@, g as int)
                &&& same_bits_except(old(self)@, final(self)@, g as int)
                &&& data_block(final(self)@, g as int) == zeros(
                    old(self).sb().block_size as int,
                )
                &&& same_data_except(old(self)@, final(self)@, g as int)
            },
    {
        match self.fs.b_alloc() {
            Ok(g) => Ok(g),
            Err(e) => Err(InodeFSError::InodeSystemError(e)),
        }
    }

    /// Read and decode the superblock from block 0.
    pub fn sup_get(&self) -> (r: Result<SuperBlock, InodeFSError>)
        ensures
            self@.len() > 0 && self@[0].len() >= crate::layout::SUPERBLOCK_SIZE ==> r == Ok::<
                SuperBlock,
                InodeFSError,
            >(self.sb()),
            !(self@.len() > 0 && self@[0].len() >= crate::layout::SUPERBLOCK_SIZE) ==> r is Err,
    {
        match self.fs.sup_get() {
            Ok(s) => Ok(s),
            Err(e) => Err(InodeFSError::InodeSystemError(e)),
        }
    }

    /// Serialize `sup` into a zeroed block and write it at block 0.
    pub fn sup_put(&mut self, sup: &SuperBlock) -> (r: Result<(), InodeFSError>)
        requires
            sup.block_size <= usize::MAX,
        ensures
            final(self).fs.device.block_size == old(self).fs.device.block_size,
            final(self).fs.device.nblocks == old(self).fs.device.nblocks,
            sup.block_size >= crate::layout::SUPERBLOCK_SIZE && old(self)@.len() > 0
                && sup.block_size == old(self).fs.device.block_size ==> r == Ok::<
                (),
                InodeFSError,
            >(()) && sb_of(final(self)@) == *sup && (forall|i: int|
                0 < i < old(self)@.len() ==> final(self)@[i] == old(self)@[i]),
            !(sup.block_size >= crate::layout::SUPERBLOCK_SIZE && old(self)@.len() > 0
                && sup.block_size == old(self).fs.device.block_size) ==> r is Err && final(self)@
                == old(self)@,
    {
        match self.fs.sup_put(sup) {
            Ok(_) => Ok(()),
            Err(e) => Err(InodeFSError::InodeSystemError(e)),
        }
    }

    /// Read inode `i` from the inode table.
    pub fn i_get(&self, i: u64) -> (r: Result<Inode, InodeFSError>)
        requires
            self.wf(),
        ensures
            i < self.sb().ninodes ==> (r matches Ok(ino) && ino.inum == i && ino.disk_node@
                == inode_v(self@, i as int) && ino.disk_node.direct_blocks@.len() == NDIRECT),
            i >= self.sb().ninodes ==> r == Err::<Inode, InodeFSError>(
                InodeFSError::InodeSystemError(BlockFSError::OutsideOfTheBoundariesError),
            ),
    {
        let sb = match self.sup_get() {
            Ok(s) => s,
            Err(e) => {
                proof {
                    assert(false);
                }
                return Err(e);
            },
        };
        if i >= sb.ninodes {
            return Err(InodeFSError::InodeSystemError(BlockFSError::OutsideOfTheBoundariesError));
        }
        proof {
            lemma_inode_slot_in_range(sb, i as int);
        }
        let n_inodes_per_block: u64 = sb.block_size / DINODE_SIZE;
        let index_of_block: u64 = i / n_inodes_per_block;
        let inode_blk = match self.b_get(sb.inodestart + index_of_block) {
            Ok(b) => b,
            Err(e) => {
                proof {
                    assert(false);
                }
                return Err(e);
            },
        };
        let slot_offset: u64 = DINODE_SIZE * (i % n_inodes_per_block);
        let dinode = decode_dinode(inode_blk.contents_as_ref(), slot_offset as usize);
        Ok(Inode::new(i, dinode))
    }

    /// Write the record of `ino` into slot `ino.inum` of the inode table.
    pub fn i_put(&mut self, ino: &Inode) -> (r: Result<(), InodeFSError>)
        requires
            old(self).wf(),
            ino.disk_node.direct_blocks@.len() == NDIRECT,
        ensures
            final(self).wf(),
            final(self).fs.device.block_size == old(self).fs.device.block_size,
            final(self).fs.device.nblocks == old(self).fs.device.nblocks,
            final(self).sb() == old(self).sb(),
            same_bits(old(self)@, final(self)@),
            same_data(old(self)@, final(self)@),
            ino.inum >= old(self).sb().ninodes ==> r == Err::<(), InodeFSError>(
                InodeFSError::InodeSystemError(BlockFSError::OutsideOfTheBoundariesError),
            ) && final(self)@ == old(self)@,
            ino.inum < old(self).sb().ninodes ==> r == Ok::<(), InodeFSError>(()) && inode_v(
                final(self)@,
                ino.inum as int,
            ) == ino.disk_node@ && same_inodes_except(old(self)@, final(self)@, ino.inum as int),
    {
        let sb = match self.sup_get() {
            Ok(s) => s,
            Err(e) => {
                proof {
                    assert(false);
                }
                return Err(e);
            },
        };
        if ino.inum >= sb.ninodes {
            return Err(InodeFSError::InodeSystemError(BlockFSError::OutsideOfTheBoundariesError));
        }
        proof {
            lemma_inode_slot_in_range(sb, ino.inum as int);
        }
        let n_inodes_per_block: u64 = sb.block_size / DINODE_SIZE;
        let index_of_block: u64 = ino.inum / n_inodes_per_block;
        let mut inode_blk = match self.b_get(sb.inodestart + index_of_block) {
            Ok(b) => b,
            Err(e) => {
                proof {
                    assert(false);
                }
                return Err(e);
            },
        };
        let slot_offset: u64 = DINODE_SIZE * (ino.inum % n_inodes_per_block);
        let enc = encode_dinode(&ino.disk_node);
        crate::bytes::write_bytes(&mut inode_blk.data, slot_offset as usize, &enc);
        let ghost d0 = self@;
        match self.b_put(&inode_blk) {
            Ok(_) => {},
            Err(e) => {
                proof {
                    assert(false);
                }
                return Err(e);
            },
        }
        proof {
            lemma_inode_write_frame(d0, self@, sb, ino.inum as int, enc@);
        }
        Ok(())
    }
}


/// The first `bound` direct pointers have all been checked and released:
/// each is zero or addresses a distinct, previously allocated data block.
pub open spec fn prefix_ok(sb: SuperBlock, d: Seq<Seq<u8>>, di: DInodeV, bound: int) -> bool {
    forall|u: int|
        0 <= u < bound ==> (#[trigger] di.direct[u]) == 0 || (sb.datastart <= di.direct[u]
            < sb.datastart + sb.ndatablocks && bit_of(d, di.direct[u] - sb.datastart)
            && !freed_by(sb, di, u, di.direct[u] - sb.datastart))
}


/// Extending the freed prefix by one pointer adds exactly the block that
/// pointer addresses.
proof fn lemma_freed_by_extend(sb: SuperBlock, di: DInodeV, t: int, m: int)
    requires
        0 <= t,
    ensures
        freed_by(sb, di, t + 1, m) == (freed_by(sb, di, t, m) || di.direct[t] == sb.datastart
            + m),
{
    if freed_by(sb, di, t + 1, m) {
        let tw = choose|tw: int| 0 <= tw < t + 1 && #[trigger] di.direct[tw] == sb.datastart + m;
        if tw < t {
            assert(freed_by(sb, di, t, m));
        }
    }
    if freed_by(sb, di, t, m) {
        let tw = choose|tw: int| 0 <= tw < t && #[trigger] di.direct[tw] == sb.datastart + m;
        assert(0 <= tw < t + 1 && di.direct[tw] == sb.datastart + m);
        assert(freed_by(sb, di, t + 1, m));
    }
    if di.direct[t] == sb.datastart + m {
        assert(0 <= t < t + 1 && di.direct[t] == sb.datastart + m);
        assert(freed_by(sb, di, t + 1, m));
    }
}

/// If releasing the `t`-th pointer fails because its bit is out of range
/// or already clear, the pointer list was not releasable to begin with.
proof fn lemma_free_err_not_ok(
    sb: SuperBlock,
    d0: Seq<Seq<u8>>,
    dpre: Seq<Seq<u8>>,
    di: DInodeV,
    t: int,
    rel: int,
)
    requires
        0 <= t < nvalid_of(sb, di),
        di.direct[t] != 0,
        sb.datastart <= di.direct[t],
        rel == di.direct[t] - sb.datastart,
        forall|m: int|
            0 <= m < sb.ndatablocks ==> #[trigger] bit_of(dpre, m) == (bit_of(d0, m)
                && !freed_by(sb, di, t, m)),
        rel >= sb.ndatablocks || !bit_of(dpre, rel),
    ensures
        !free_ok(sb, d0, di),
{
    if free_ok(sb, d0, di) {
        assert(di.direct[t] == 0 || (sb.datastart <= di.direct[t] < sb.datastart
            + sb.ndatablocks && bit_of(d0, di.direct[t] - sb.datastart)));
        assert(0 <= rel < sb.ndatablocks && bit_of(d0, rel));
        assert(!bit_of(dpre, rel));
        assert(freed_by(sb, di, t, rel));
        let tw = choose|tw: int| 0 <= tw < t && #[trigger] di.direct[tw] == sb.datastart + rel;
        assert(di.direct[tw] == di.direct[t]);
        assert(di.direct[tw] != 0);
        assert(di.direct[tw] != di.direct[t]);
        assert(false);
    }
}

impl InodeFS {
    /// Release every data block addressed by the first
    /// `ceil(size / block_size)` direct pointers of `di`.  Succeeds if and
    /// only if the pointers can all be released; on success exactly their
    /// allocation bits are cleared.
    #[verifier::rlimit(100)]
    fn free_blocks(&mut self, di: &DInode) -> (r: Result<(), InodeFSError>)
        requires
            old(self).wf(),
            di.direct_blocks@.len() == NDIRECT,
            nvalid_of(old(self).sb(), di@) <= NDIRECT,
        ensures
            final(self).wf(),
            final(self).fs.device.block_size == old(self).fs.device.block_size,
            final(self).fs.device.nblocks == old(self).fs.device.nblocks,
            final(self).sb() == old(self).sb(),
            same_inodes(old(self)@, final(self)@),
            same_data(old(self)@, final(self)@),
            r is Ok <==> free_ok(old(self).sb(), old(self)@, di@),
            r is Ok ==> forall|m: int|
                0 <= m < old(self).sb().ndatablocks ==> #[trigger] bit_of(final(self)@, m) == (
                bit_of(old(self)@, m) && !freed_by(
                    old(self).sb(),
                    di@,
                    nvalid_of(old(self).sb(), di@),
                    m,
                )),
            r is Err ==> forall|m: int|
                0 <= m < old(self).sb().ndatablocks ==> (#[trigger] bit_of(final(self)@, m)
                    ==> bit_of(old(self)@, m)),
    {
        proof {
            lemma_valid_regions_disjoint(sb_of(old(self)@));
        }
        let sb = match self.sup_get() {
            Ok(s) => s,
            Err(e) => {
                proof {
                    assert(false);
                }
                return Err(e);
            },
        };
        let bs: u64 = sb.block_size;
        let size: u64 = di.size;
        let n_valid_blocks: u64 = size / bs + if size % bs == 0 {
            0
        } else {
            1
        };
        proof {
            assert(n_valid_blocks == nvalid_of(sb, di@));
        }
        let ghost d0 = self@;
        let mut t: usize = 0;
        while t < n_valid_blocks as usize
            invariant
                self.wf(),
                d0 == old(self)@,
                sb == self.sb(),
                sb == old(self).sb(),
                sb.valid(),
                di.direct_blocks@.len() == NDIRECT,
                n_valid_blocks == nvalid_of(sb, di@),
                n_valid_blocks <= NDIRECT,
                t <= n_valid_blocks,
                self.fs.device.block_size == old(self).fs.device.block_size,
                self.fs.device.nblocks == old(self).fs.device.nblocks,
                same_inodes(d0, self@),
                same_data(d0, self@),
                prefix_ok(sb, d0, di@, t as int),
                forall|m: int|
                    0 <= m < sb.ndatablocks ==> #[trigger] bit_of(self@, m) == (bit_of(d0, m)
                        && !freed_by(sb, di@, t as int, m)),
            decreases n_valid_blocks - t,
        {
            let db: u64 = di.direct_blocks[t];
            if db != 0 {
                if db < sb.datastart {
                    proof {
                        assert(!free_ok(sb, d0, di@)) by {
                            if free_ok(sb, d0, di@) {
                                let dt = di@.direct[t as int];
                                assert(dt == 0 || sb.datastart <= dt);
                                assert(false);
                            }
                        }
                    }
                    return Err(InodeFSError::InodeSystemError(
                        BlockFSError::OutsideOfTheBoundariesError,
                    ));
                }
                let rel: u64 = db - sb.datastart;
                let ghost dpre = self@;
                match self.b_free(rel) {
                    Ok(_) => {
                        proof {
                            assert(bit_of(dpre, rel as int));
                            assert forall|m: int| 0 <= m < sb.ndatablocks implies #[trigger] bit_of(
                                self@,
                                m,
                            ) == (bit_of(d0, m) && !freed_by(sb, di@, t as int + 1, m)) by {
                                lemma_freed_by_extend(sb, di@, t as int, m);
                                if m == rel {
                                    assert(!bit_of(self@, m));
                                } else {
                                    assert(bit_of(self@, m) == bit_of(dpre, m));
                                }
                            }
                        }
                    },
                    Err(e) => {
                        proof {
                            lemma_free_err_not_ok(sb, d0, dpre, di@, t as int, rel as int);
                        }
                        return Err(e);
                    },
                }
            } else {
                proof {
                    assert forall|m: int| 0 <= m < sb.ndatablocks implies #[trigger] bit_of(
                        self@,
                        m,
                    ) == (bit_of(d0, m) && !freed_by(sb, di@, t as int + 1, m)) by {
                        lemma_freed_by_extend(sb, di@, t as int, m);
                        assert(di@.direct[t as int] != sb.datastart + m);
                    }
                }
            }
            t = t + 1;
        }
        proof {
            assert(free_ok(sb, d0, di@)) by {
                assert forall|t1: int, t2: int|
                    0 <= t1 < t2 < nvalid_of(sb, di@) && #[trigger] di@.direct[t1] != 0 implies di@
                    .direct[t1] != #[trigger] di@.direct[t2] by {
                    if di@.direct[t1] == di@.direct[t2] {
                        assert(di@.direct[t2] != 0);
                        assert(sb.datastart <= di@.direct[t2]);
                        let m = di@.direct[t2] - sb.datastart;
                        assert(di@.direct[t1] == sb.datastart + m);
                        assert(freed_by(sb, di@, t2, m));
                        assert(false);
                    }
                }
            }
        }
        Ok(())
    }

    /// Allocate the first free inode, give it type `ft` with no links and
    /// no content, and return its number.  Inode 0 is reserved and never
    /// scanned.  Fails iff no inode other than inode 0 is free.
    pub fn i_alloc(&mut self, ft: FType) -> (r: Result<u64, InodeFSError>)
        requires
            old(self).wf(),
        ensures
            final(self).wf(),
            final(self).fs.device.block_size == old(self).fs.device.block_size,
            final(self).fs.device.nblocks == old(self).fs.device.nblocks,
            final(self).sb() == old(self).sb(),
            same_bits(old(self)@, final(self)@),
            same_data(old(self)@, final(self)@),
            r matches Err(e) ==> e == InodeFSError::InodeSystemError(
                BlockFSError::OutsideOfTheBoundariesError,
            ) && final(self)@ == old(self)@ && (forall|m: int|
                1 <= m < old(self).sb().ninodes ==> #[trigger] inode_v(old(self)@, m).ft
                    != FType::TFree),
            r matches Ok(k) ==> {
                &&& 1 <= k < old(self).sb().ninodes
                &&& inode_v(old(self)@, k as int).ft == FType::TFree
                &&& forall|m: int|
                    1 <= m < k ==> #[trigger] inode_v(old(self)@, m).ft != FType::TFree
                &&& inode_v(final(self)@, k as int) == (DInodeV {
                    ft,
                    nlink: 0,
                    size: 0,
                    direct: inode_v(old(self)@, k as int).direct,
                })
                &&& same_inodes_except(old(self)@, final(self)@, k as int)
            },
    {
        let sb = match self.sup_get() {
            Ok(s) => s,
            Err(e) => {
                proof {
                    assert(false);
                }
                return Err(e);
            },
        };
        let mut k: u64 = 1;
        while k < sb.ninodes
            invariant
                self.wf(),
                self@ == old(self)@,
                sb == self.sb(),
                sb == old(self).sb(),
                sb.valid(),
                1 <= k,
                k <= sb.ninodes || k == 1,
                self.fs.device.block_size == old(self).fs.device.block_size,
                self.fs.device.nblocks == old(self).fs.device.nblocks,
                forall|m: int| 1 <= m < k ==> #[trigger] inode_v(self@, m).ft != FType::TFree,
            decreases sb.ninodes - k,
        {
            let ino = match self.i_get(k) {
                Ok(ino) => ino,
                Err(e) => {
                    proof {
                        assert(false);
                    }
                    return Err(e);
                },
            };
            if ino.disk_node.ft == FType::TFree {
                let new_node = DInode {
                    ft,
                    nlink: 0,
                    size: 0,
                    direct_blocks: ino.disk_node.direct_blocks,
                };
                match self.i_put(&Inode::new(k, new_node)) {
                    Ok(_) => {},
                    Err(e) => {
                        proof {
                            assert(false);
                        }
                        return Err(e);
                    },
                }
                return Ok(k);
            }
            k = k + 1;
        }
        Err(InodeFSError::InodeSystemError(BlockFSError::OutsideOfTheBoundariesError))
    }

    /// Free inode `i`.  A free inode cannot be freed again; an inode that
    /// still has links is left untouched; otherwise the inode's data
    /// blocks are released, its pointers cleared, and its type set free.
    pub fn i_free(&mut self, i: u64) -> (r: Result<(), InodeFSError>)
        requires
            old(self).wf(),
        ensures
            final(self).wf(),
            final(self).fs.device.block_size == old(self).fs.device.block_size,
            final(self).fs.device.nblocks == old(self).fs.device.nblocks,
            final(self).sb() == old(self).sb(),
            same_data(old(self)@, final(self)@),
            i >= old(self).sb().ninodes ==> r == Err::<(), InodeFSError>(
                InodeFSError::InodeSystemError(BlockFSError::OutsideOfTheBoundariesError),
            ) && final(self)@ == old(self)@,
            i < old(self).sb().ninodes && inode_v(old(self)@, i as int).ft == FType::TFree ==> r
                == Err::<(), InodeFSError>(InodeFSError::InodeAlreadyDeallocatedError)
                && final(self)@ == old(self)@,
            i < old(self).sb().ninodes && inode_v(old(self)@, i as int).ft != FType::TFree
                && inode_v(old(self)@, i as int).nlink > 0 ==> r == Ok::<(), InodeFSError>(())
                && final(self)@ == old(self)@,
            i < old(self).sb().ninodes && inode_v(old(self)@, i as int).ft != FType::TFree
                && inode_v(old(self)@, i as int).nlink == 0 ==> {
                let di = inode_v(old(self)@, i as int);
                let sb = old(self).sb();
                &&& (r is Ok <==> free_ok(sb, old(self)@, di))
                &&& r is Ok ==> inode_v(final(self)@, i as int) == (DInodeV {
                    ft: FType::TFree,
                    nlink: di.nlink,
                    size: di.size,
                    direct: dinode_default().direct,
                }) && same_inodes_except(old(self)@, final(self)@, i as int) && (forall|m: int|
                    0 <= m < sb.ndatablocks ==> #[trigger] bit_of(final(self)@, m) == (bit_of(
                        old(self)@,
                        m,
                    ) && !freed_by(sb, di, nvalid_of(sb, di), m)))
                &&& r is Err ==> same_inodes(old(self)@, final(self)@) && (forall|m: int|
                    0 <= m < sb.ndatablocks ==> (#[trigger] bit_of(final(self)@, m) ==> bit_of(
                        old(self)@,
                        m,
                    )))
            },
    {
        proof {
            lemma_valid_regions_disjoint(sb_of(old(self)@));
        }
        let sb = match self.sup_get() {
            Ok(s) => s,
            Err(e) => {
                proof {
                    assert(false);
                }
                return Err(e);
            },
        };
        if i >= sb.ninodes {
            return Err(InodeFSError::InodeSystemError(BlockFSError::OutsideOfTheBoundariesError));
        }
        let requested_inode = match self.i_get(i) {
            Ok(ino) => ino,
            Err(e) => {
                proof {
                    assert(false);
                }
                return Err(e);
            },
        };
        if requested_inode.disk_node.ft == FType::TFree {
            return Err(InodeFSError::InodeAlreadyDeallocatedError);
        }
        if requested_inode.disk_node.nlink != 0 {
            return Ok(());
        }
        let bs: u64 = sb.block_size;
        let size: u64 = requested_inode.disk_node.size;
        proof {
            assert(2 * (size as int / bs as int) <= size) by (nonlinear_arith)
                requires
                    bs >= 2,
                    size >= 0,
            ;
        }
        let n_valid_blocks: u64 = size / bs + if size % bs == 0 {
            0
        } else {
            1
        };
        if n_valid_blocks > NDIRECT as u64 {
            proof {
                assert(!free_ok(sb, old(self)@, requested_inode.disk_node@));
            }
            return Err(InodeFSError::InodeSystemError(BlockFSError::OutsideOfTheBoundariesError));
        }
        match self.free_blocks(&requested_inode.disk_node) {
            Ok(_) => {},
            Err(e) => {
                return Err(e);
            },
        }
        let modified = DInode {
            ft: FType::TFree,
            nlink: requested_inode.disk_node.nlink,
            size: requested_inode.disk_node.size,
            direct_blocks: DInode::default().direct_blocks,
        };
        match self.i_put(&Inode::new(i, modified)) {
            Ok(_) => {},
            Err(e) => {
                proof {
                    assert(false);
                }
                return Err(e);
            },
        }
        Ok(())
    }

    /// Truncate `inode`: release its data blocks, clear its pointers and
    /// set its size to zero, leaving its type and link count alone, then
    /// write it back.
    pub fn i_trunc(&mut self, inode: &mut Inode) -> (r: Result<(), InodeFSError>)
        requires
            old(self).wf(),
            old(inode).disk_node.direct_blocks@.len() == NDIRECT,
        ensures
            final(self).wf(),
            final(self).fs.device.block_size == old(self).fs.device.block_size,
            final(self).fs.device.nblocks == old(self).fs.device.nblocks,
            final(self).sb() == old(self).sb(),
            same_data(old(self)@, final(self)@),
            final(inode).inum == old(inode).inum,
            r is Ok <==> free_ok(old(self).sb(), old(self)@, old(inode).disk_node@) && old(
                inode,
            ).inum < old(self).sb().ninodes,
            r is Ok ==> {
                let di = old(inode).disk_node@;
                let sb = old(self).sb();
                &&& final(inode).disk_node@ == (DInodeV {
                    ft: di.ft,
                    nlink: di.nlink,
                    size: 0,
                    direct: dinode_default().direct,
                })
                &&& inode_v(final(self)@, old(inode).inum as int) == final(inode).disk_node@
                &&& same_inodes_except(old(self)@, final(self)@, old(inode).inum as int)
                &&& forall|m: int|
                    0 <= m < sb.ndatablocks ==> #[trigger] bit_of(final(self)@, m) == (bit_of(
                        old(self)@,
                        m,
                    ) && !freed_by(sb, di, nvalid_of(sb, di), m))
            },
            r is Err ==> same_inodes(old(self)@, final(self)@) && (forall|m: int|
                0 <= m < old(self).sb().ndatablocks ==> (#[trigger] bit_of(final(self)@, m)
                    ==> bit_of(old(self)@, m))),
    {
        proof {
            lemma_valid_regions_disjoint(sb_of(old(self)@));
        }
        let sb = match self.sup_get() {
            Ok(s) => s,
            Err(e) => {
                proof {
                    assert(false);
                }
                return Err(e);
            },
        };
        let bs: u64 = sb.block_size;
        let size: u64 = inode.disk_node.size;
        proof {
            assert(2 * (size as int / bs as int) <= size) by (nonlinear_arith)
                requires
                    bs >= 2,
                    size >= 0,
            ;
        }
        let n_valid_blocks: u64 = size / bs + if size % bs == 0 {
            0
        } else {
            1
        };
        if n_valid_blocks > NDIRECT as u64 {
            proof {
                assert(!free_ok(sb, old(self)@, old(inode).disk_node@));
            }
            return Err(InodeFSError::InodeSystemError(BlockFSError::OutsideOfTheBoundariesError));
        }
        match self.free_blocks(&inode.disk_node) {
            Ok(_) => {},
            Err(e) => {
                return Err(e);
            },
        }
        inode.disk_node.size = 0;
        inode.disk_node.direct_blocks = DInode::default().direct_blocks;
        match self.i_put(inode) {
            Ok(_) => {},
            Err(e) => {
                return Err(e);
            },
        }
        proof {
            assert(final(inode).disk_node@.direct =~= dinode_default().direct);
        }
        Ok(())
    }
}

} // verus!
