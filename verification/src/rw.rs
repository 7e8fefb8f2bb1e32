//! The read/write layer: byte-granular reads and append-capable writes
//! across an inode's direct block list, built on the inode layer.

use vstd::prelude::*;
use vstd::arithmetic::div_mod::lemma_fundamental_div_mod_converse;
use crate::block::{fresh_disk, BlockFS, BlockFSError};
use crate::bytes::{splice, zeros};
use crate::device::{Block, Device, DeviceError};
use crate::disk::{
    bit_of, data_block, free_count, inode_v, lemma_free_count_after_set, lemma_free_count_full,
    lemma_free_count_same, same_bits, same_bits_except, same_data, same_data_except, same_inodes,
    same_inodes_except, sb_of,
};
use crate::inode::{free_ok, freed_by, nvalid_of, InodeFS, InodeFSError};
use crate::layout::{
    dinode_default, DInode, DInodeV, FType, Inode, SuperBlock, DINODE_SIZE, NDIRECT,
};

verus! {

/// An error of the read/write layer.
#[derive(Clone, Copy, Debug, PartialEq, Eq, Structural)]
pub enum RWInodeFSError {
    /// An error propagated from the block device.
    DeviceSystemError(DeviceError),
    /// An error propagated from the inode layer.
    InodeRWSystemError(InodeFSError),
    /// A read or write starting beyond the inode's content.
    OffsetOutsideOfInode,
}

/// A caller-owned byte buffer read and written at byte offsets.
#[derive(Debug, Clone)]
pub struct Buffer {
    /// The buffer's bytes.
    pub data: Vec<u8>,
}

impl View for Buffer {
    type V = Seq<u8>;

    open spec fn view(&self) -> Seq<u8> {
        self.data@
    }
}

impl Buffer {
    /// A buffer owning the given bytes.
    pub fn new(data: Vec<u8>) -> (b: Buffer)
        ensures
            b@ == data@,
    {
        Buffer { data }
    }

    /// A zeroed buffer of `n` bytes.
    pub fn new_zero(n: u64) -> (b: Buffer)
        requires
            n <= usize::MAX,
        ensures
            b@ == zeros(n as int),
    {
        Buffer { data: crate::bytes::zero_vec(n as usize) }
    }

    /// The number of bytes in the buffer.
    pub fn len(&self) -> (n: usize)
        ensures
            n == self@.len(),
    {
        self.data.len()
    }

    /// A read-only view of the buffer's bytes.
    pub fn contents_as_ref(&self) -> (r: &Vec<u8>)
        ensures
            r@ == self@,
    {
        &self.data
    }

    /// Write all of `src` at byte offset `off`; fails if the range does
    /// not fit in the buffer.
    pub fn write_data(&mut self, src: &Vec<u8>, off: u64) -> (r: Result<(), DeviceError>)
        ensures
            off + src@.len() <= old(self)@.len() ==> r == Ok::<(), DeviceError>(())
                && final(self)@ == splice(old(self)@, off as int, src@),
            off + src@.len() > old(self)@.len() ==> r == Err::<(), DeviceError>(
                DeviceError::OffsetOutOfRange,
            ) && final(self)@ == old(self)@,
    {
        let n: usize = self.data.len();
        if off > n as u64 || src.len() as u64 > n as u64 - off {
            return Err(DeviceError::OffsetOutOfRange);
        }
        crate::bytes::write_bytes(&mut self.data, off as usize, src);
        Ok(())
    }

    /// Read `n` bytes starting at byte offset `off`; fails if the range
    /// does not fit in the buffer.
    pub fn read_data(&self, off: u64, n: u64) -> (r: Result<Vec<u8>, DeviceError>)
        ensures
            off + n <= self@.len() ==> (r matches Ok(v) && v@ == self@.subrange(
                off as int,
                off as int + n as int,
            )),
            off + n > self@.len() ==> r == Err::<Vec<u8>, DeviceError>(
                DeviceError::OffsetOutOfRange,
            ),
    {
        let len: usize = self.data.len();
        if off > len as u64 || n > len as u64 - off {
            return Err(DeviceError::OffsetOutOfRange);
        }
        Ok(crate::bytes::read_bytes(&self.data, off as usize, n as usize))
    }
}

/// The byte of the file described by `di` at content offset `o`.
pub open spec fn file_byte(d: Seq<Seq<u8>>, sb: SuperBlock, di: DInodeV, o: int) -> u8 {
    d[di.direct[o / sb.block_size as int] as int][o % sb.block_size as int]
}

/// `n` bytes of the file described by `di` starting at content offset
/// `off`.
pub open spec fn file_bytes(
    d: Seq<Seq<u8>>,
    sb: SuperBlock,
    di: DInodeV,
    off: int,
    n: int,
) -> Seq<u8> {
    Seq::new(n as nat, |i: int| file_byte(d, sb, di, off + i))
}

/// The inode's content is laid out sanely: a full pointer list whose
/// first `ceil(size / block_size)` entries address distinct, allocated
/// data blocks.
pub open spec fn file_wf(sb: SuperBlock, d: Seq<Seq<u8>>, di: DInodeV) -> bool {
    &&& di.direct.len() == NDIRECT
    &&& di.size <= NDIRECT * sb.block_size
    &&& forall|t: int|
        0 <= t < nvalid_of(sb, di) ==> sb.datastart <= #[trigger] di.direct[t] < sb.datastart
            + sb.ndatablocks && bit_of(d, di.direct[t] - sb.datastart)
    &&& forall|t1: int, t2: int|
        0 <= t1 < t2 < nvalid_of(sb, di) ==> #[trigger] di.direct[t1] != #[trigger] di.direct[t2]
}

/// The read/write-layer filesystem: the inode layer plus byte-granular
/// access to an inode's content.
pub struct RWInodeFS {
    /// The underlying inode layer.
    pub fs: InodeFS,
}

impl View for RWInodeFS {
    type V = Seq<Seq<u8>>;

    open spec fn view(&self) -> Seq<Seq<u8>> {
        self.fs@
    }
}

impl RWInodeFS {
    /// The filesystem is well formed when the layers below are.
    pub open spec fn wf(self) -> bool {
        self.fs.wf()
    }

    /// The superblock stored in block 0.
    pub open spec fn sb(self) -> SuperBlock {
        self.fs.sb()
    }

    /// Whether `sb` satisfies all layout invariants.
    pub fn sb_valid(sb: &SuperBlock) -> (r: bool)
        ensures
            r == sb.valid(),
    {
        BlockFS::sb_valid(sb)
    }

    /// Format a fresh zeroed device with the given superblock; every
    /// inode starts out free.
    pub fn mkfs(sb: &SuperBlock) -> (r: Result<RWInodeFS, RWInodeFSError>)
        ensures
            sb.valid() <==> r is Ok,
            !sb.valid() ==> r == Err::<RWInodeFS, RWInodeFSError>(
                RWInodeFSError::InodeRWSystemError(
                    InodeFSError::InodeSystemError(BlockFSError::SuperBlockInvalid),
                ),
            ),
            r matches Ok(fs) ==> {
                &&& fs.wf()
                &&& fs.fs.fs.device.block_size == sb.block_size
                &&& fs.fs.fs.device.nblocks == sb.nblocks
                &&& fresh_disk(fs@, *sb)
            },
    {
        match InodeFS::mkfs(sb) {
            Ok(fs) => Ok(RWInodeFS { fs }),
            Err(e) => Err(RWInodeFSError::InodeRWSystemError(e)),
        }
    }

    /// Mount an existing device, as the block layer does.
    pub fn mountfs(dev: Device) -> (r: Result<RWInodeFS, RWInodeFSError>)
        requires
            dev.wf(),
        ensures
            dev@.len() > 0 && dev.block_size >= crate::layout::SUPERBLOCK_SIZE && sb_of(
                dev@,
            ).valid() && sb_of(dev@).block_size == dev.block_size && sb_of(dev@).nblocks
                == dev.nblocks ==> (r matches Ok(fs) && fs@ == dev@ && fs.wf()),
            !(dev@.len() > 0 && dev.block_size >= crate::layout::SUPERBLOCK_SIZE && sb_of(
                dev@,
            ).valid()) ==> r == Err::<RWInodeFS, RWInodeFSError>(
                RWInodeFSError::InodeRWSystemError(
                    InodeFSError::InodeSystemError(BlockFSError::SuperBlockInvalid),
                ),
            ),
            dev@.len() > 0 && dev.block_size >= crate::layout::SUPERBLOCK_SIZE && sb_of(
                dev@,
            ).valid() && !(sb_of(dev@).block_size == dev.block_size && sb_of(dev@).nblocks
                == dev.nblocks) ==> r == Err::<RWInodeFS, RWInodeFSError>(
                RWInodeFSError::InodeRWSystemError(
                    InodeFSError::InodeSystemError(BlockFSError::DeviceConfigurationInvalid),
                ),
            ),
    {
        match InodeFS::mountfs(dev) {
            Ok(fs) => Ok(RWInodeFS { fs }),
            Err(e) => Err(RWInodeFSError::InodeRWSystemError(e)),
        }
    }

    /// Release the filesystem and hand the device back.
    pub fn unmountfs(self) -> (d: Device)
        ensures
            d == self.fs.fs.device,
    {
        self.fs.unmountfs()
    }

    /// Read block `i` as a whole.
    pub fn b_get(&self, i: u64) -> (r: Result<Block, RWInodeFSError>)
        ensures
            i < self@.len() ==> (r matches Ok(b) && b.block_no == i && b@ == self@[i as int]),
            i >= self@.len() ==> r == Err::<Block, RWInodeFSError>(
                RWInodeFSError::InodeRWSystemError(
                    InodeFSError::InodeSystemError(
                        BlockFSError::FileSystemError(DeviceError::BlockOutOfRange),
                    ),
                ),
            ),
    {
        match self.fs.b_get(i) {
            Ok(b) => Ok(b),
            Err(e) => Err(RWInodeFSError::InodeRWSystemError(e)),
        }
    }

    /// Write `b` back to block `b.block_no` as a whole.
    pub fn b_put(&mut self, b: &Block) -> (r: Result<(), RWInodeFSError>)
        ensures
            final(self).fs.fs.device.block_size == old(self).fs.fs.device.block_size,
            final(self).fs.fs.device.nblocks == old(self).fs.fs.device.nblocks,
            b.block_no < old(self)@.len() && b@.len() == old(self).fs.fs.device.block_size ==> r
                == Ok::<(), RWInodeFSError>(()) && final(self)@ == old(self)@.update(
                b.block_no as int,
                b@,
            ),
            !(b.block_no < old(self)@.len() && b@.len() == old(self).fs.fs.device.block_size)
                ==> r is Err && final(self)@ == old(self)@,
            old(self).wf() && b.block_no != 0 && r is Ok ==> final(self).wf() && final(self).sb()
                == old(self).sb(),
            old(self).wf() && old(self).sb().datastart <= b.block_no && b.block_no < old(
                self,
            ).sb().datastart + old(self).sb().ndatablocks && r is Ok ==> same_inodes(
                old(self)@,
                final(self)@,
            ) && same_bits(old(self)@, final(self)@) && same_data_except(
                old(self)@,
                final(self)@,
                b.block_no - old(self).sb().datastart,
            ) && data_block(final(self)@, b.block_no - old(self).sb().datastart) == b@,
    {
        match self.fs.b_put(b) {
            Ok(_) => Ok(()),
            Err(e) => Err(RWInodeFSError::InodeRWSystemError(e)),
        }
    }

    /// Clear the allocation bit of data block `i` (data-relative).
    pub fn b_free(&mut self, i: u64) -> (r: Result<(), RWInodeFSError>)
        requires
            old(self).wf(),
        ensures
            final(self).wf(),
            final(self).fs.fs.device.block_size == old(self).fs.fs.device.block_size,
            final(self).fs.fs.device.nblocks == old(self).fs.fs.device.nblocks,
            final(self).sb() == old(self).sb(),
            same_inodes(old(self)@, final(self)@),
            same_data(old(self)@, final(self)@),
            i >= old(self).sb().ndatablocks ==> r == Err::<(), RWInodeFSError>(
                RWInodeFSError::InodeRWSystemError(
                    InodeFSError::InodeSystemError(BlockFSError::OutsideOfTheBoundariesError),
                ),
            ) && final(self)@ == old(self)@,
            i < old(self).sb().ndatablocks && !bit_of(old(self)@, i as int) ==> r == Err::<
                (),
                RWInodeFSError,
            >(
                RWInodeFSError::InodeRWSystemError(
                    InodeFSError::InodeSystemError(BlockFSError::MemoryAlreadyDeallocated),
                ),
            ) && final(self)@ == old(self)@,
            i < old(self).sb().ndatablocks && bit_of(old(self)@, i as int) ==> r == Ok::<
                (),
                RWInodeFSError,
            >(()) && !bit_of(final(self)@, i as int) && same_bits_except(
                old(self)@,
                final(self)@,
                i as int,
            ),
    {
        match self.fs.b_free(i) {
            Ok(_) => Ok(()),
            Err(e) => Err(RWInodeFSError::InodeRWSystemError(e)),
        }
    }

    /// Write a fully zeroed block at data-relative index `i`.
    pub fn b_zero(&mut self, i: u64) -> (r: Result<(), RWInodeFSError>)
        requires
            old(self).wf(),
        ensures
            final(self).wf(),
            final(self).fs.fs.device.block_size == old(self).fs.fs.device.block_size,
            final(self).fs.fs.device.nblocks == old(self).fs.fs.device.nblocks,
            final(self).sb() == old(self).sb(),
            same_inodes(old(self)@, final(self)@),
            same_bits(old(self)@, final(self)@),
            i >= old(self).sb().ndatablocks ==> r is Err && final(self)@ == old(self)@,
            i < old(self).sb().ndatablocks ==> r == Ok::<(), RWInodeFSError>(()) && data_block(
                final(self)@,
                i as int,
            ) == zeros(old(self).sb().block_size as int) && same_data_except(
                old(self)@,
                final(self)@,
                i as int,
            ),
    {
        match self.fs.b_zero(i) {
            Ok(_) => Ok(()),
            Err(e) => Err(RWInodeFSError::InodeRWSystemError(e)),
        }
    }

    /// First-fit allocation of a data block.
    pub fn b_alloc(&mut self) -> (r: Result<u64, RWInodeFSError>)
        requires
            old(self).wf(),
        ensures
            final(self).wf(),
            final(self).fs.fs.device.block_size == old(self).fs.fs.device.block_size,
            final(self).fs.fs.device.nblocks == old(self).fs.fs.device.nblocks,
            final(self).sb() == old(self).sb(),
            same_inodes(old(self)@, final(self)@),
            r matches Err(e) ==> e == RWInodeFSError::InodeRWSystemError(
                InodeFSError::InodeSystemError(BlockFSError::OutsideOfTheBoundariesError),
            ) && final(self)@ == old(self)@ && (forall|m: int|
                0 <= m < old(self).sb().ndatablocks ==> #[trigger] bit_of(old(self)@, m)),
            r matches Ok(g) ==> {
                &&& g < old(self).sb().ndatablocks
                &&& !bit_of(old(self)@, g as int)
                &&& forall|m: int| 0 <= m < g ==> #[trigger] bit_of(old(self)@, m)
                &&& bit_of(final(self)@, g as int)
                &&& same_bits_except(old(self)@, final(self)@, g as int)
                &&& data_block(final(self)@, g as int) == zeros(
                    old(self).sb().block_size as int,
                )
                &&& same_data_except(old(self)@, final(self)@, g as int)
            },
    {
        match self.fs.b_alloc() {
            Ok(g) => Ok(g),
            Err(e) => Err(RWInodeFSError::InodeRWSystemError(e)),
        }
    }

    /// Read and decode the superblock from block 0.
    pub fn sup_get(&self) -> (r: Result<SuperBlock, RWInodeFSError>)
        ensures
            self@.len() > 0 && self@[0].len() >= crate::layout::SUPERBLOCK_SIZE ==> r == Ok::<
                SuperBlock,
                RWInodeFSError,
            >(self.sb()),
            !(self@.len() > 0 && self@[0].len() >= crate::layout::SUPERBLOCK_SIZE) ==> r is Err,
    {
        match self.fs.sup_get() {
            Ok(s) => Ok(s),
            Err(e) => Err(RWInodeFSError::InodeRWSystemError(e)),
        }
    }

    /// Serialize `sup` into a zeroed block and write it at block 0.
    pub fn sup_put(&mut self, sup: &SuperBlock) -> (r: Result<(), RWInodeFSError>)
        requires
            sup.block_size <= usize::MAX,
        ensures
            final(self).fs.fs.device.block_size == old(self).fs.fs.device.block_size,
            final(self).fs.fs.device.nblocks == old(self).fs.fs.device.nblocks,
            sup.block_size >= crate::layout::SUPERBLOCK_SIZE && old(self)@.len() > 0
                && sup.block_size == old(self).fs.fs.device.block_size ==> r == Ok::<
                (),
                RWInodeFSError,
            >(()) && sb_of(final(self)@) == *sup && (forall|i: int|
                0 < i < old(self)@.len() ==> final(self)@[i] == old(self)@[i]),
            !(sup.block_size >= crate::layout::SUPERBLOCK_SIZE && old(self)@.len() > 0
                && sup.block_size == old(self).fs.fs.device.block_size) ==> r is Err
                && final(self)@ == old(self)@,
    {
        match self.fs.sup_put(sup) {
            Ok(_) => Ok(()),
            Err(e) => Err(RWInodeFSError::InodeRWSystemError(e)),
        }
    }

    /// Read inode `i` from the inode table.
    pub fn i_get(&self, i: u64) -> (r: Result<Inode, RWInodeFSError>)
        requires
            self.wf(),
        ensures
            i < self.sb().ninodes ==> (r matches Ok(ino) && ino.inum == i && ino.disk_node@
                == inode_v(self@, i as int) && ino.disk_node.direct_blocks@.len() == NDIRECT),
            i >= self.sb().ninodes ==> r == Err::<Inode, RWInodeFSError>(
                RWInodeFSError::InodeRWSystemError(
                    InodeFSError::InodeSystemError(BlockFSError::OutsideOfTheBoundariesError),
                ),
            ),
    {
        match self.fs.i_get(i) {
            Ok(ino) => Ok(ino),
            Err(e) => Err(RWInodeFSError::InodeRWSystemError(e)),
        }
    }

    /// Write the record of `ino` into slot `ino.inum` of the inode table.
    pub fn i_put(&mut self, ino: &Inode) -> (r: Result<(), RWInodeFSError>)
        requires
            old(self).wf(),
            ino.disk_node.direct_blocks@.len() == NDIRECT,
        ensures
            final(self).wf(),
            final(self).fs.fs.device.block_size == old(self).fs.fs.device.block_size,
            final(self).fs.fs.device.nblocks == old(self).fs.fs.device.nblocks,
            final(self).sb() == old(self).sb(),
            same_bits(old(self)@, final(self)@),
            same_data(old(self)@, final(self)@),
            ino.inum >= old(self).sb().ninodes ==> r == Err::<(), RWInodeFSError>(
                RWInodeFSError::InodeRWSystemError(
                    InodeFSError::InodeSystemError(BlockFSError::OutsideOfTheBoundariesError),
                ),
            ) && final(self)@ == old(self)@,
            ino.inum < old(self).sb().ninodes ==> r == Ok::<(), RWInodeFSError>(()) && inode_v(
                final(self)@,
                ino.inum as int,
            ) == ino.disk_node@ && same_inodes_except(old(self)@, final(self)@, ino.inum as int),
    {
        match self.fs.i_put(ino) {
            Ok(_) => Ok(()),
            Err(e) => Err(RWInodeFSError::InodeRWSystemError(e)),
        }
    }

    /// Allocate the first free inode with type `ft`.
    pub fn i_alloc(&mut self, ft: FType) -> (r: Result<u64, RWInodeFSError>)
        requires
            old(self).wf(),
        ensures
            final(self).wf(),
            final(self).fs.fs.device.block_size == old(self).fs.fs.device.block_size,
            final(self).fs.fs.device.nblocks == old(self).fs.fs.device.nblocks,
            final(self).sb() == old(self).sb(),
            same_bits(old(self)@, final(self)@),
            same_data(old(self)@, final(self)@),
            r matches Err(e) ==> e == RWInodeFSError::InodeRWSystemError(
                InodeFSError::InodeSystemError(BlockFSError::OutsideOfTheBoundariesError),
            ) && final(self)@ == old(self)@ && (forall|m: int|
                1 <= m < old(self).sb().ninodes ==> #[trigger] inode_v(old(self)@, m).ft
                    != FType::TFree),
            r matches Ok(k) ==> {
                &&& 1 <= k < old(self).sb().ninodes
                &&& inode_v(old(self)@, k as int).ft == FType::TFree
                &&& forall|m: int|
                    1 <= m < k ==> #[trigger] inode_v(old(self)@, m).ft != FType::TFree
                &&& inode_v(final(self)@, k as int) == (DInodeV {
                    ft,
                    nlink: 0,
                    size: 0,
                    direct: inode_v(old(self)@, k as int).direct,
                })
                &&& same_inodes_except(old(self)@, final(self)@, k as int)
            },
    {
        match self.fs.i_alloc(ft) {
            Ok(k) => Ok(k),
            Err(e) => Err(RWInodeFSError::InodeRWSystemError(e)),
        }
    }

    /// Free inode `i`, releasing its data blocks when its last link is
    /// gone.
    pub fn i_free(&mut self, i: u64) -> (r: Result<(), RWInodeFSError>)
        requires
            old(self).wf(),
        ensures
            final(self).wf(),
            final(self).fs.fs.device.block_size == old(self).fs.fs.device.block_size,
            final(self).fs.fs.device.nblocks == old(self).fs.fs.device.nblocks,
            final(self).sb() == old(self).sb(),
            same_data(old(self)@, final(self)@),
            i >= old(self).sb().ninodes ==> r is Err && final(self)@ == old(self)@,
            i < old(self).sb().ninodes && inode_v(old(self)@, i as int).ft == FType::TFree ==> r
                == Err::<(), RWInodeFSError>(
                RWInodeFSError::InodeRWSystemError(InodeFSError::InodeAlreadyDeallocatedError),
            ) && final(self)@ == old(self)@,
            i < old(self).sb().ninodes && inode_v(old(self)@, i as int).ft != FType::TFree
                && inode_v(old(self)@, i as int).nlink > 0 ==> r == Ok::<(), RWInodeFSError>(())
                && final(self)@ == old(self)@,
            i < old(self).sb().ninodes && inode_v(old(self)@, i as int).ft != FType::TFree
                && inode_v(old(self)@, i as int).nlink == 0 ==> {
                let di = inode_v(old(self)@, i as int);
                let sb = old(self).sb();
                &&& (r is Ok <==> free_ok(sb, old(self)@, di))
                &&& r is Ok ==> inode_v(final(self)@, i as int) == (DInodeV {
                    ft: FType::TFree,
                    nlink: di.nlink,
                    size: di.size,
                    direct: dinode_default().direct,
                }) && same_inodes_except(old(self)@, final(self)@, i as int) && (forall|m: int|
                    0 <= m < sb.ndatablocks ==> #[trigger] bit_of(final(self)@, m) == (bit_of(
                        old(self)@,
                        m,
                    ) && !freed_by(sb, di, nvalid_of(sb, di), m)))
            },
    {
        match self.fs.i_free(i) {
            Ok(_) => Ok(()),
            Err(e) => Err(RWInodeFSError::InodeRWSystemError(e)),
        }
    }

    /// Truncate `inode` and write it back.
    pub fn i_trunc(&mut self, inode: &mut Inode) -> (r: Result<(), RWInodeFSError>)
        requires
            old(self).wf(),
            old(inode).disk_node.direct_blocks@.len() == NDIRECT,
        ensures
            final(self).wf(),
            final(self).fs.fs.device.block_size == old(self).fs.fs.device.block_size,
            final(self).fs.fs.device.nblocks == old(self).fs.fs.device.nblocks,
            final(self).sb() == old(self).sb(),
            same_data(old(self)@, final(self)@),
            final(inode).inum == old(inode).inum,
            r is Ok <==> free_ok(old(self).sb(), old(self)@, old(inode).disk_node@) && old(
                inode,
            ).inum < old(self).sb().ninodes,
            r is Ok ==> {
                let di = old(inode).disk_node@;
                let sb = old(self).sb();
                &&& final(inode).disk_node@ == (DInodeV {
                    ft: di.ft,
                    nlink: di.nlink,
                    size: 0,
                    direct: dinode_default().direct,
                })
                &&& inode_v(final(self)@, old(inode).inum as int) == final(inode).disk_node@
                &&& same_inodes_except(old(self)@, final(self)@, old(inode).inum as int)
                &&& forall|m: int|
                    0 <= m < sb.ndatablocks ==> #[trigger] bit_of(final(self)@, m) == (bit_of(
                        old(self)@,
                        m,
                    ) && !freed_by(sb, di, nvalid_of(sb, di), m))
            },
    {
        match self.fs.i_trunc(inode) {
            Ok(_) => Ok(()),
            Err(e) => Err(RWInodeFSError::InodeRWSystemError(e)),
        }
    }

}


impl RWInodeFS {
    /// Read up to `n` bytes of `inode`'s content starting at offset
    /// `off` into the front of `buf`.  Reading past the end of the
    /// content is cut short; reading exactly at the end reads nothing;
    /// reading beyond it is refused.  Returns the number of bytes read.
    #[verifier::rlimit(100)]
    pub fn i_read(&self, inode: &Inode, buf: &mut Buffer, off: u64, n: u64) -> (r: Result<
        u64,
        RWInodeFSError,
    >)
        requires
            self.wf(),
            inode.disk_node.direct_blocks@.len() == NDIRECT,
        ensures
            off > inode.disk_node@.size <==> r == Err::<u64, RWInodeFSError>(
                RWInodeFSError::OffsetOutsideOfInode,
            ),
            r is Err ==> final(buf)@ == old(buf)@,
            off == inode.disk_node@.size ==> r == Ok::<u64, RWInodeFSError>(0) && final(buf)@
                == old(buf)@,
            ({
                let sb = self.sb();
                let di = inode.disk_node@;
                let cnt = if n <= di.size - off {
                    n as int
                } else {
                    di.size - off
                };
                (file_wf(sb, self@, di) && off < di.size) ==> {
                    &&& old(buf)@.len() >= cnt ==> r == Ok::<u64, RWInodeFSError>(cnt as u64)
                        && final(buf)@ == splice(old(buf)@, 0, file_bytes(self@, sb, di, off as int, cnt))
                    &&& old(buf)@.len() < cnt ==> r == Err::<u64, RWInodeFSError>(
                        RWInodeFSError::DeviceSystemError(DeviceError::OffsetOutOfRange),
                    )
                }
            }),
    {
        proof {
            crate::layout::lemma_valid_regions_disjoint(sb_of(self@));
        }
        let sb = match self.sup_get() {
            Ok(s) => s,
            Err(e) => {
                proof {
                    assert(false);
                }
                return Err(e);
            },
        };
        let size: u64 = inode.disk_node.size;
        if off > size {
            return Err(RWInodeFSError::OffsetOutsideOfInode);
        }
        if off == size {
            return Ok(0);
        }
        let ghost di = inode.disk_node@;
        let ghost fwf = file_wf(sb, self@, di);
        let bs: u64 = sb.block_size;
        let cnt: u64 = if n <= size - off {
            n
        } else {
            size - off
        };
        let mut acc: Vec<u8> = Vec::new();
        let mut copied: u64 = 0;
        while copied < cnt
            invariant
                self.wf(),
                sb == self.sb(),
                sb.valid(),
                di == inode.disk_node@,
                inode.disk_node.direct_blocks@.len() == NDIRECT,
                bs == sb.block_size,
                off < di.size,
                off + cnt <= di.size,
                fwf == file_wf(sb, self@, di),
                copied <= cnt,
                acc@.len() == copied,
                forall|i: int|
                    0 <= i < copied ==> #[trigger] acc@[i] == file_byte(
                        self@,
                        sb,
                        di,
                        off + i,
                    ),
            decreases cnt - copied,
        {
            let o: u64 = off + copied;
            let t: u64 = o / bs;
            if t >= NDIRECT as u64 {
                proof {
                    if fwf {
                        assert(o < di.size);
                        assert(di.size <= NDIRECT * bs);
                        assert((o as int) / (bs as int) < NDIRECT) by (nonlinear_arith)
                            requires
                                0 <= o,
                                o < NDIRECT * bs,
                                bs >= 108,
                        ;
                        assert(false);
                    }
                }
                return Err(RWInodeFSError::InodeRWSystemError(
                    InodeFSError::InodeSystemError(BlockFSError::OutsideOfTheBoundariesError),
                ));
            }
            proof {
                if fwf {
                    assert(t < nvalid_of(sb, di)) by (nonlinear_arith)
                        requires
                            0 <= o < di.size,
                            t == o as int / bs as int,
                            bs >= 108,
                            nvalid_of(sb, di) == di.size as int / bs as int + if di.size as int
                                % bs as int == 0 {
                                0int
                            } else {
                                1int
                            },
                    ;
                }
            }
            let db: u64 = inode.disk_node.direct_blocks[t as usize];
            let current_block = match self.b_get(db) {
                Ok(b) => b,
                Err(e) => {
                    proof {
                        if fwf {
                            assert(sb.datastart <= di.direct[t as int] < sb.datastart
                                + sb.ndatablocks);
                            assert(false);
                        }
                    }
                    return Err(e);
                },
            };
            let start: u64 = o % bs;
            let avail: u64 = bs - start;
            let remaining: u64 = cnt - copied;
            let want: u64 = if avail <= remaining {
                avail
            } else {
                remaining
            };
            let chunk = crate::bytes::read_bytes(
                current_block.contents_as_ref(),
                start as usize,
                want as usize,
            );
            let ghost pre = acc@;
            let mut chunk_vec = chunk;
            acc.append(&mut chunk_vec);
            proof {
                assert forall|i: int| 0 <= i < copied + want implies #[trigger] acc@[i]
                    == file_byte(self@, sb, di, off + i) by {
                    if i >= copied {
                        let j = i - copied;
                        assert(acc@[i] == self@[db as int][start + j]);
                        vstd::arithmetic::div_mod::lemma_fundamental_div_mod(o as int, bs as int);
                        assert(o + j == t as int * (bs as int) + (start + j)) by (nonlinear_arith)
                            requires
                                o as int == (bs as int) * (t as int) + (start as int),
                                t as int == o as int / (bs as int),
                                start as int == o as int % (bs as int),
                        ;
                        lemma_fundamental_div_mod_converse(
                            o + j,
                            bs as int,
                            t as int,
                            start + j,
                        );
                        assert((o + j) as int / bs as int == t as int);
                        assert((o + j) as int % bs as int == start + j);
                        let fb = self@[di.direct[t as int] as int][start + j];
                        assert(file_byte(self@, sb, di, off + i) == fb);
                    } else {
                        assert(acc@[i] == pre[i]);
                    }
                }
            }
            copied = copied + want;
        }
        match buf.write_data(&acc, 0) {
            Ok(_) => {},
            Err(e) => {
                proof {
                    assert(old(buf)@.len() < cnt);
                }
                return Err(RWInodeFSError::DeviceSystemError(e));
            },
        }
        proof {
            assert(acc@ =~= file_bytes(self@, sb, di, off as int, cnt as int));
        }
        Ok(cnt)
    }
}



impl RWInodeFS {
    /// Write `n` bytes from the front of `buf` into `inode`'s content at
    /// offset `off`, allocating fresh data blocks past the currently
    /// allocated ones, and grow the recorded size to cover the written
    /// range.  Writing may start anywhere up to the current end of the
    /// content; starting beyond it is refused.  Success is owed whenever
    /// the inode is well laid out, the buffer covers `n` bytes, the range
    /// stays within the direct-block capacity, the inode number is in
    /// range, and the bitmap holds enough free blocks for the part past
    /// the already-allocated ones.
    #[verifier::rlimit(100)]
    pub fn i_write(&mut self, inode: &mut Inode, buf: &Buffer, off: u64, n: u64) -> (r: Result<
        (),
        RWInodeFSError,
    >)
        requires
            old(self).wf(),
            old(inode).disk_node.direct_blocks@.len() == NDIRECT,
        ensures
            final(self).wf(),
            final(self).fs.fs.device.block_size == old(self).fs.fs.device.block_size,
            final(self).fs.fs.device.nblocks == old(self).fs.fs.device.nblocks,
            final(self).sb() == old(self).sb(),
            final(inode).inum == old(inode).inum,
            off > old(inode).disk_node@.size <==> r == Err::<(), RWInodeFSError>(
                RWInodeFSError::OffsetOutsideOfInode,
            ),
            off > old(inode).disk_node@.size ==> final(self)@ == old(self)@ && *final(inode)
                == *old(inode),
            forall|m: int|
                0 <= m < old(self).sb().ndatablocks && bit_of(old(self)@, m) ==> #[trigger]
                bit_of(final(self)@, m),
            r is Err ==> same_inodes(old(self)@, final(self)@),
            ({
                let d0 = old(self)@;
                let sb = old(self).sb();
                let di0 = old(inode).disk_node@;
                let dF = final(self)@;
                let diF = final(inode).disk_node@;
                let w = file_wf(sb, d0, di0) && off <= di0.size && off + n <= NDIRECT
                    * sb.block_size && buf@.len() >= n && old(inode).inum < sb.ninodes;
                &&& (r is Ok ==> {
                    &&& diF.size == if off + n > di0.size {
                        (off + n) as u64
                    } else {
                        di0.size
                    }
                    &&& diF.ft == di0.ft
                    &&& diF.nlink == di0.nlink
                    &&& final(inode).disk_node.direct_blocks@.len() == NDIRECT
                    &&& forall|t: int|
                        0 <= t < nvalid_of(sb, di0) && t < NDIRECT ==> #[trigger] diF.direct[t]
                            == di0.direct[t]
                    &&& same_inodes_except(d0, dF, old(inode).inum as int)
                    &&& old(inode).inum < sb.ninodes ==> inode_v(dF, old(inode).inum as int)
                        == diF
                    &&& w ==> file_bytes(dF, sb, diF, off as int, n as int) == buf@.subrange(
                        0,
                        n as int,
                    )
                    &&& w ==> file_wf(sb, dF, diF)
                })
                &&& (w && off + n <= nvalid_of(sb, di0) * sb.block_size ==> r is Ok)
                &&& (w && crate::layout::ceil_div((off + n) as int, sb.block_size as int)
                    - nvalid_of(sb, di0) <= free_count(d0, sb.ndatablocks as int) ==> r is Ok)
            }),
    {
        proof {
            crate::layout::lemma_valid_regions_disjoint(sb_of(old(self)@));
        }
        let ghost d0 = self@;
        let ghost di0 = old(inode).disk_node@;
        let sb = match self.sup_get() {
            Ok(s) => s,
            Err(e) => {
                proof {
                    assert(false);
                }
                return Err(e);
            },
        };
        let size: u64 = inode.disk_node.size;
        if off > size {
            return Err(RWInodeFSError::OffsetOutsideOfInode);
        }
        let bs: u64 = sb.block_size;
        let ghost w = file_wf(sb, d0, di0) && off <= di0.size && off + n <= NDIRECT * bs
            && buf@.len() >= n && old(inode).inum < sb.ninodes;
        if n > u64::MAX - off {
            proof {
                if w {
                    assert(false);
                }
            }
            return Err(RWInodeFSError::InodeRWSystemError(
                InodeFSError::InodeSystemError(BlockFSError::OutsideOfTheBoundariesError),
            ));
        }
        let end: u64 = off + n;
        proof {
            assert(2 * (size as int / bs as int) <= size) by (nonlinear_arith)
                requires
                    bs >= 2,
                    size >= 0,
            ;
        }
        let ghost navail0 = (size / bs + if size % bs == 0 { 0u64 } else { 1u64 }) as int;
        let mut navail: u64 = size / bs + if size % bs == 0 {
            0
        } else {
            1
        };
        proof {
            assert(navail == nvalid_of(sb, di0));
            assert(size <= navail * bs) by (nonlinear_arith)
                requires
                    bs >= 108,
                    size >= 0,
                    navail == size as int / bs as int + if size as int % bs as int == 0 {
                        0int
                    } else {
                        1int
                    },
            ;
        }
        let mut pos: u64 = off;
        while pos < end
            invariant
                self.wf(),
                sb == self.sb(),
                sb == old(self).sb(),
                sb.valid(),
                d0 == old(self)@,
                di0 == old(inode).disk_node@,
                di0.direct.len() == NDIRECT,
                self.fs.fs.device.block_size == old(self).fs.fs.device.block_size,
                self.fs.fs.device.nblocks == old(self).fs.fs.device.nblocks,
                same_inodes(d0, self@),
                forall|m: int|
                    0 <= m < sb.ndatablocks && bit_of(d0, m) ==> #[trigger] bit_of(self@, m),
                inode.inum == old(inode).inum,
                inode.disk_node.direct_blocks@.len() == NDIRECT,
                inode.disk_node@.size == di0.size,
                inode.disk_node@.ft == di0.ft,
                inode.disk_node@.nlink == di0.nlink,
                forall|t: int|
                    0 <= t < navail0 && t < NDIRECT ==> #[trigger] inode.disk_node@.direct[t]
                        == di0.direct[t],
                bs == sb.block_size,
                size == di0.size,
                off <= di0.size,
                end == off + n,
                off <= pos <= end,
                navail0 == nvalid_of(sb, di0),
                navail0 <= navail,
                size <= navail * bs,
                pos <= navail * bs,
                w == (file_wf(sb, d0, di0) && off <= di0.size && off + n <= NDIRECT * bs
                    && buf@.len() >= n && old(inode).inum < sb.ninodes),
                w && crate::layout::ceil_div(end as int, bs as int) - navail0 <= free_count(
                    d0,
                    sb.ndatablocks as int,
                ) ==> crate::layout::ceil_div(end as int, bs as int) - navail <= free_count(
                    self@,
                    sb.ndatablocks as int,
                ),
                w ==> forall|t: int|
                    navail0 <= t < navail && t < NDIRECT ==> sb.datastart
                        <= #[trigger] inode.disk_node@.direct[t] < sb.datastart + sb.ndatablocks
                        && bit_of(self@, inode.disk_node@.direct[t] - sb.datastart) && !bit_of(
                        d0,
                        inode.disk_node@.direct[t] - sb.datastart,
                    ),
                w ==> forall|t1: int, t2: int|
                    0 <= t1 < t2 < navail && t2 < NDIRECT ==> #[trigger] inode.disk_node@.direct[t1]
                        != #[trigger] inode.disk_node@.direct[t2],
                w ==> forall|o: int|
                    off <= o < pos ==> (sb.datastart <= #[trigger] inode.disk_node@.direct[o
                        / bs as int] < sb.datastart + sb.ndatablocks && file_byte(
                        self@,
                        sb,
                        inode.disk_node@,
                        o,
                    ) == buf@[o - off]),
            decreases end - pos,
        {
            let t: u64 = pos / bs;
            if t >= NDIRECT as u64 {
                proof {
                    if w {
                        assert((pos as int) / (bs as int) < NDIRECT) by (nonlinear_arith)
                            requires
                                0 <= pos,
                                pos < NDIRECT * bs,
                                bs >= 108,
                        ;
                        assert(false);
                    }
                }
                return Err(RWInodeFSError::InodeRWSystemError(
                    InodeFSError::InodeSystemError(BlockFSError::OutsideOfTheBoundariesError),
                ));
            }
            if t >= navail {
                proof {
                    assert(pos >= navail * bs) by (nonlinear_arith)
                        requires
                            t as int == pos as int / (bs as int),
                            t >= navail,
                            bs >= 108,
                            pos >= 0,
                    ;
                    assert(t == navail) by (nonlinear_arith)
                        requires
                            pos == navail * bs,
                            t as int == pos as int / (bs as int),
                            bs >= 108,
                            navail >= 0,
                    ;
                }
                let ghost d_before_alloc = self@;
                let g: u64 = match self.b_alloc() {
                    Ok(g) => g,
                    Err(e) => {
                        proof {
                            if w && end <= navail0 * bs {
                                assert(navail0 * bs <= navail * bs) by (nonlinear_arith)
                                    requires
                                        navail0 <= navail,
                                        bs >= 108,
                                ;
                                assert(false);
                            }
                            if w && crate::layout::ceil_div(end as int, bs as int) - navail0
                                <= free_count(d0, sb.ndatablocks as int) {
                                lemma_free_count_full(self@, sb.ndatablocks as int);
                                assert(crate::layout::ceil_div(end as int, bs as int) <= navail);
                                assert(crate::layout::ceil_div(end as int, bs as int) >= t + 1)
                                    by (nonlinear_arith)
                                    requires
                                        pos < end,
                                        t as int == pos as int / (bs as int),
                                        bs >= 108,
                                        pos >= 0,
                                        crate::layout::ceil_div(end as int, bs as int) == end
                                            as int / bs as int + if end as int % bs as int == 0 {
                                            0int
                                        } else {
                                            1int
                                        },
                                ;
                                assert(false);
                            }
                        }
                        return Err(e);
                    },
                };
                let ghost din_pre = inode.disk_node@;
                inode.disk_node.direct_blocks.set(t as usize, g + sb.datastart);
                proof {
                    assert(inode.disk_node@.direct == din_pre.direct.update(
                        t as int,
                        (g + sb.datastart) as u64,
                    ));
                    assert forall|t5: int| 0 <= t5 < navail0 && t5 < NDIRECT implies #[trigger]
                    inode.disk_node@.direct[t5] == di0.direct[t5] by {
                        assert(t5 < navail);
                        assert(t5 != t as int);
                        assert(inode.disk_node@.direct[t5] == din_pre.direct[t5]);
                        assert(din_pre.direct[t5] == di0.direct[t5]);
                    }
                    if w {
                        assert forall|o: int| off <= o < pos implies (sb.datastart
                            <= #[trigger] inode.disk_node@.direct[o / bs as int] < sb.datastart
                            + sb.ndatablocks && file_byte(self@, sb, inode.disk_node@, o)
                            == buf@[o - off]) by {
                            let t2 = o / bs as int;
                            assert(0 <= t2 && t2 < t as int) by (nonlinear_arith)
                                requires
                                    0 <= o,
                                    o < pos,
                                    pos == t as int * (bs as int),
                                    t2 == o / (bs as int),
                                    bs >= 108,
                            ;
                            assert(inode.disk_node@.direct[t2] == din_pre.direct[t2]);
                            assert(sb.datastart <= din_pre.direct[t2] < sb.datastart
                                + sb.ndatablocks);
                            assert(file_byte(d_before_alloc, sb, din_pre, o) == buf@[o - off]);
                            let b2 = din_pre.direct[t2];
                            assert(bit_of(d_before_alloc, b2 - sb.datastart)) by {
                                if t2 < navail0 {
                                    assert(din_pre.direct[t2] == di0.direct[t2]);
                                    assert(t2 < nvalid_of(sb, di0));
                                    assert(bit_of(d0, b2 - sb.datastart));
                                }
                            }
                            assert(!bit_of(d_before_alloc, g as int));
                            assert(b2 - sb.datastart != g);
                            assert(data_block(self@, b2 - sb.datastart) == data_block(
                                d_before_alloc,
                                b2 - sb.datastart,
                            ));
                            assert(self@[b2 as int] == d_before_alloc[b2 as int]);
                        }
                    }
                }
                navail = navail + 1;
                proof {
                    lemma_free_count_after_set(
                        d_before_alloc,
                        self@,
                        g as int,
                        sb.ndatablocks as int,
                    );
                    if w {
                        assert forall|t1: int, t2: int|
                            0 <= t1 < t2 < navail && t2 < NDIRECT implies #[trigger]
                        inode.disk_node@.direct[t1] != #[trigger] inode.disk_node@.direct[t2] by {
                            if t2 == t {
                                if t1 < navail0 {
                                    assert(inode.disk_node@.direct[t1] == di0.direct[t1]);
                                    assert(bit_of(d0, di0.direct[t1] - sb.datastart));
                                    assert(bit_of(self@, di0.direct[t1] - sb.datastart)
                                        == bit_of(d0, di0.direct[t1] - sb.datastart));
                                } else {
                                    assert(bit_of(self@, inode.disk_node@.direct[t1]
                                        - sb.datastart) == bit_of(
                                        d0,
                                        inode.disk_node@.direct[t1] - sb.datastart,
                                    ) || bit_of(self@, inode.disk_node@.direct[t1] - sb.datastart));
                                }
                            }
                        }
                    }
                }
            }
            let db: u64 = inode.disk_node.direct_blocks[t as usize];
            if db < sb.datastart || db - sb.datastart >= sb.ndatablocks {
                proof {
                    if w {
                        if t < navail0 {
                            assert(inode.disk_node@.direct[t as int] == di0.direct[t as int]);
                            assert(sb.datastart <= di0.direct[t as int] < sb.datastart
                                + sb.ndatablocks);
                        } else {
                            assert(navail0 <= t < navail);
                            assert(sb.datastart <= inode.disk_node@.direct[t as int]
                                < sb.datastart + sb.ndatablocks);
                        }
                        assert(false);
                    }
                }
                return Err(RWInodeFSError::InodeRWSystemError(
                    InodeFSError::InodeSystemError(BlockFSError::OutsideOfTheBoundariesError),
                ));
            }
            let mut current_block = match self.b_get(db) {
                Ok(b) => b,
                Err(e) => {
                    proof {
                        assert(false);
                    }
                    return Err(e);
                },
            };
            let start: u64 = pos % bs;
            let avail: u64 = bs - start;
            let remaining: u64 = end - pos;
            let want: u64 = if avail <= remaining {
                avail
            } else {
                remaining
            };
            if (pos - off) > buf.len() as u64 || want > buf.len() as u64 - (pos - off) {
                proof {
                    if w {
                        assert(false);
                    }
                }
                return Err(RWInodeFSError::DeviceSystemError(DeviceError::OffsetOutOfRange));
            }
            let chunk = crate::bytes::read_bytes(
                buf.contents_as_ref(),
                (pos - off) as usize,
                want as usize,
            );
            crate::bytes::write_bytes(&mut current_block.data, start as usize, &chunk);
            let ghost dpre = self@;
            match self.b_put(&current_block) {
                Ok(_) => {},
                Err(e) => {
                    proof {
                        assert(false);
                    }
                    return Err(e);
                },
            }
            proof {
                lemma_free_count_same(dpre, self@, sb.ndatablocks as int);
                if w {
                    let din = inode.disk_node@;
                    let rel = db - sb.datastart;
                    vstd::arithmetic::div_mod::lemma_fundamental_div_mod(pos as int, bs as int);
                    assert(self@[db as int] == splice(dpre[db as int], start as int, chunk@));
                    assert forall|o: int| off <= o < pos + want implies (sb.datastart
                        <= #[trigger] din.direct[o / bs as int] < sb.datastart + sb.ndatablocks
                        && file_byte(self@, sb, din, o) == buf@[o - off]) by {
                        vstd::arithmetic::div_mod::lemma_fundamental_div_mod(o, bs as int);
                        let t2 = o / bs as int;
                        if o >= pos {
                            let j = o - pos;
                            assert(o == t as int * (bs as int) + (start + j)) by (nonlinear_arith)
                                requires
                                    pos as int == (bs as int) * (t as int) + (start as int),
                                    o == pos + j,
                            ;
                            lemma_fundamental_div_mod_converse(o, bs as int, t as int, start + j);
                            assert(file_byte(self@, sb, din, o) == self@[db as int][start + j]);
                            assert(self@[db as int][start + j] == chunk@[j]);
                        } else {
                            assert(sb.datastart <= din.direct[t2] < sb.datastart
                                + sb.ndatablocks);
                            assert(file_byte(dpre, sb, din, o) == buf@[o - off]);
                            assert(0 <= t2 && t2 <= t) by (nonlinear_arith)
                                requires
                                    o < pos,
                                    o >= 0,
                                    bs >= 108,
                                    t2 == o / (bs as int),
                                    t as int == pos as int / (bs as int),
                            ;
                            if t2 == t {
                                assert((o % (bs as int)) < start) by (nonlinear_arith)
                                    requires
                                        o / (bs as int) == pos as int / (bs as int),
                                        o < pos,
                                        o >= 0,
                                        bs >= 108,
                                        o == (bs as int) * (o / bs as int) + o % (bs as int),
                                        pos as int == (bs as int) * (pos as int / (bs as int)) + (
                                        start as int),
                                ;
                                assert(self@[db as int][o % bs as int] == dpre[db as int][o
                                    % bs as int]);
                            } else {
                                assert(t2 < t);
                                assert(t < navail && t < NDIRECT);
                                assert(din.direct[t2] != din.direct[t as int]);
                                assert(self@[din.direct[t2] as int] == dpre[din.direct[t2] as int]);
                            }
                        }
                    }
                }
            }
            proof {
                vstd::arithmetic::div_mod::lemma_fundamental_div_mod(pos as int, bs as int);
                assert(pos + want <= navail * bs) by (nonlinear_arith)
                    requires
                        t < navail,
                        pos as int == (bs as int) * (t as int) + (start as int),
                        t as int == pos as int / (bs as int),
                        start as int == pos as int % (bs as int),
                        want <= bs - start,
                        bs >= 108,
                        navail >= 0,
                ;
            }
            pos = pos + want;
        }
        let ghost din_e = inode.disk_node@;
        if end > size {
            inode.disk_node.size = end;
        }
        let ghost din_f = inode.disk_node@;
        let ghost dloop = self@;
        proof {
            assert(din_f.direct == din_e.direct);
        }
        match self.i_put(inode) {
            Ok(_) => {},
            Err(e) => {
                proof {
                    if w {
                        assert(false);
                    }
                }
                return Err(e);
            },
        }
        proof {
            if w {
                assert forall|o: int| off <= o < end implies #[trigger] file_byte(
                    self@,
                    sb,
                    din_f,
                    o,
                ) == buf@[o - off] by {
                    assert(sb.datastart <= din_e.direct[o / bs as int] < sb.datastart
                        + sb.ndatablocks && file_byte(dloop, sb, din_e, o) == buf@[o - off]);
                    let b2 = din_e.direct[o / bs as int];
                    assert(data_block(self@, b2 - sb.datastart) == data_block(
                        dloop,
                        b2 - sb.datastart,
                    ));
                    assert(self@[b2 as int] == dloop[b2 as int]);
                    assert(file_byte(self@, sb, din_f, o) == file_byte(dloop, sb, din_e, o));
                }
                assert(file_bytes(self@, sb, din_f, off as int, n as int) =~= buf@.subrange(
                    0,
                    n as int,
                ));
                assert(file_wf(sb, self@, din_f)) by {
                    assert forall|t2: int|
                        0 <= t2 < nvalid_of(sb, din_f) implies sb.datastart <= #[trigger]
                    din_f.direct[t2] < sb.datastart + sb.ndatablocks && bit_of(
                        self@,
                        din_f.direct[t2] - sb.datastart,
                    ) by {
                        assert(nvalid_of(sb, din_f) <= navail) by (nonlinear_arith)
                            requires
                                din_f.size <= navail * bs,
                                bs >= 108,
                                navail >= 0,
                                nvalid_of(sb, din_f) == din_f.size as int / bs as int + if din_f
                                    .size as int % bs as int == 0 {
                                    0int
                                } else {
                                    1int
                                },
                        ;
                        assert(din_f.size <= NDIRECT * bs);
                        assert(nvalid_of(sb, din_f) <= NDIRECT) by (nonlinear_arith)
                            requires
                                din_f.size <= NDIRECT * bs,
                                bs >= 108,
                                nvalid_of(sb, din_f) == din_f.size as int / bs as int + if din_f
                                    .size as int % bs as int == 0 {
                                    0int
                                } else {
                                    1int
                                },
                        ;
                        assert(t2 < NDIRECT);
                        assert(din_f.direct[t2] == din_e.direct[t2]);
                        if t2 < navail0 {
                            assert(din_e.direct[t2] == di0.direct[t2]);
                            assert(t2 < nvalid_of(sb, di0));
                            assert(bit_of(d0, di0.direct[t2] - sb.datastart));
                            assert(sb.datastart <= di0.direct[t2] < sb.datastart
                                + sb.ndatablocks);
                            assert(bit_of(dloop, di0.direct[t2] - sb.datastart));
                            assert(bit_of(self@, di0.direct[t2] - sb.datastart) == bit_of(
                                dloop,
                                di0.direct[t2] - sb.datastart,
                            ));
                        } else {
                            assert(navail0 <= t2 < navail && t2 < NDIRECT);
                            assert(sb.datastart <= din_e.direct[t2] < sb.datastart
                                + sb.ndatablocks);
                            assert(bit_of(dloop, din_e.direct[t2] - sb.datastart));
                            assert(bit_of(self@, din_e.direct[t2] - sb.datastart) == bit_of(
                                dloop,
                                din_e.direct[t2] - sb.datastart,
                            ));
                        }
                    }
                    assert(din_f.size <= navail * bs);
                    assert(nvalid_of(sb, din_f) <= navail) by (nonlinear_arith)
                        requires
                            din_f.size <= navail * bs,
                            bs >= 108,
                            navail >= 0,
                            nvalid_of(sb, din_f) == din_f.size as int / bs as int + if din_f.size
                                as int % bs as int == 0 {
                                0int
                            } else {
                                1int
                            },
                    ;
                    assert(din_f.size <= NDIRECT * bs);
                    assert(nvalid_of(sb, din_f) <= NDIRECT) by (nonlinear_arith)
                        requires
                            din_f.size <= NDIRECT * bs,
                            bs >= 108,
                            nvalid_of(sb, din_f) == din_f.size as int / bs as int + if din_f.size
                                as int % bs as int == 0 {
                                0int
                            } else {
                                1int
                            },
                    ;
                    assert forall|t1: int, t2: int|
                        0 <= t1 < t2 < nvalid_of(sb, din_f) implies #[trigger] din_f.direct[t1]
                        != #[trigger] din_f.direct[t2] by {
                        assert(din_f.direct[t1] == din_e.direct[t1]);
                        assert(din_f.direct[t2] == din_e.direct[t2]);
                    }
                }
            }
        }
        Ok(())
    }
}


/// Reading back a freshly written file recovers the written bytes: when a
/// write of `n` bytes at offset 0 succeeded and left the content equal to
/// the source, a following read of `n` bytes from offset 0 fills the
/// reader's buffer with exactly those bytes.
pub proof fn lemma_write_then_read(
    d: Seq<Seq<u8>>,
    sb: SuperBlock,
    di: DInodeV,
    src: Seq<u8>,
    reader: Seq<u8>,
    n: int,
)
    requires
        0 < n,
        di.size == n,
        file_bytes(d, sb, di, 0, n) == src.subrange(0, n),
        reader.len() == n,
    ensures
        splice(reader, 0, file_bytes(d, sb, di, 0, if n <= di.size - 0 { n } else { di.size - 0 }))
            == src.subrange(0, n),
{
    assert(splice(reader, 0, file_bytes(d, sb, di, 0, n)) =~= file_bytes(d, sb, di, 0, n));
}

} // verus!
