//! The directory layer: fixed-size directory entries packed into a
//! directory inode's data blocks, name lookup, and link insertion.

use vstd::prelude::*;
use vstd::arithmetic::div_mod::{lemma_fundamental_div_mod, lemma_fundamental_div_mod_converse, lemma_mod_multiples_vanish};
use crate::block::{fresh_disk, BlockFS, BlockFSError};
use crate::bytes::{le64, splice, u64_from_le, u64_to_le, zeros};
use crate::device::{Block, Device, DeviceError};
use crate::disk::{
    bit_of, data_block, disk_wf, inode_v, lemma_inode_slot_in_range, same_bits, same_bits_except,
    same_data, same_data_except, same_inodes, same_inodes_except, sb_of,
};
use crate::inode::{free_ok, freed_by, nvalid_of, InodeFS, InodeFSError};
use crate::layout::{
    dinode_default, DInode, DInodeV, FType, Inode, SuperBlock, DINODE_SIZE, DIRENTRY_SIZE,
    DIRNAME_SIZE, NDIRECT,
};

verus! {

/// An error of the directory layer.
#[derive(Clone, Copy, Debug, PartialEq, Eq, Structural)]
pub enum DirFSError {
    /// An error propagated from the block device.
    DeviceSystemError(DeviceError),
    /// An error propagated from the inode layer.
    DirectorySystemError(InodeFSError),
    /// A directory operation applied to an inode that is not a directory.
    InodeNotDirectoryError,
    /// A name lookup that found no entry.
    SearchedDirectoryDoesntExist,
    /// Linking a name that the directory already holds.
    DirEntryNameAlreadyExists,
    /// Linking to an inode that is free.
    InodeNotInUse,
}

/// The mathematical value of one directory entry: the target inode number
/// and the raw fixed-width name field.
#[verifier::ext_equal]
pub struct DirEntryV {
    /// Target inode number; 0 marks an empty slot.
    pub inum: u64,
    /// The `DIRNAME_SIZE` bytes of the name field, zero padded.
    pub name: Seq<u8>,
}

/// A directory entry: a target inode number and a fixed-width, zero-padded
/// name field of `DIRNAME_SIZE` single-byte characters.
#[derive(Debug, Clone)]
pub struct DirEntry {
    /// Target inode number; 0 marks an empty slot.
    pub inum: u64,
    /// The name field; well-formed entries hold exactly `DIRNAME_SIZE`
    /// bytes.
    pub name: Vec<u8>,
}

impl View for DirEntry {
    type V = DirEntryV;

    open spec fn view(&self) -> DirEntryV {
        DirEntryV { inum: self.inum, name: self.name@ }
    }
}

/// Whether `c` may appear in a directory entry name: an ASCII digit or
/// letter.  Each name character occupies one byte on disk.
pub open spec fn is_name_char(c: char) -> bool {
    (48 <= c as u32 <= 57) || (65 <= c as u32 <= 90) || (97 <= c as u32 <= 122)
}

/// Whether `s` is a valid directory entry name: nonempty, strictly
/// shorter than the name field (leaving room for the terminator), and
/// made of ASCII alphanumeric characters only.
pub open spec fn name_ok(s: Seq<char>) -> bool {
    &&& 1 <= s.len() < DIRNAME_SIZE
    &&& forall|i: int| 0 <= i < s.len() ==> is_name_char(#[trigger] s[i])
}

/// The packed name field storing `s`: one byte per character, zero padded
/// to the full width.
pub open spec fn name_bytes(s: Seq<char>) -> Seq<u8> {
    Seq::new(DIRNAME_SIZE as nat, |i: int| if i < s.len() { s[i] as u8 } else { 0u8 })
}

/// Whether the packed name field `f` reads back as exactly the name `q`:
/// the first `q.len()` bytes are the characters of `q` and are nonzero,
/// and the field ends there (with a zero byte, unless full).
pub open spec fn de_matches(f: Seq<u8>, q: Seq<char>) -> bool {
    &&& q.len() <= DIRNAME_SIZE
    &&& forall|i: int| 0 <= i < q.len() ==> (#[trigger] f[i]) as char == q[i] && f[i] != 0
    &&& q.len() < DIRNAME_SIZE ==> f[q.len() as int] == 0
}

/// A field reads back as at most one name.
pub proof fn lemma_de_matches_unique(f: Seq<u8>, q1: Seq<char>, q2: Seq<char>)
    requires
        de_matches(f, q1),
        de_matches(f, q2),
    ensures
        q1 == q2,
{
    if q1.len() < q2.len() {
        assert(f[q1.len() as int] == 0);
        assert(f[q1.len() as int] != 0);
    }
    if q2.len() < q1.len() {
        assert(f[q2.len() as int] == 0);
        assert(f[q2.len() as int] != 0);
    }
    assert forall|i: int| 0 <= i < q1.len() implies q1[i] == q2[i] by {
        assert(f[i] as char == q1[i] && f[i] as char == q2[i]);
    }
    assert(q1 =~= q2);
}

/// A name character stored as a single byte reads back as itself.
pub proof fn lemma_name_char_byte(c: char)
    requires
        is_name_char(c),
    ensures
        (c as u8) as char == c,
        c as u8 != 0,
{
    assert(c as u8 == (c as u32) as u8);
    let u: u32 = c as u32;
    assert((u as u8) as u32 == u && u as u8 != 0) by (bit_vector)
        requires
            1 <= u <= 122,
    ;
    assert(((c as u32) as u8) as char as u32 == c as u32);
    assert((c as u8) as char as u32 == c as u32);
    assert((c as u8) as char == c);
}

/// A valid name stored in a packed field reads back as itself.
pub proof fn lemma_name_bytes_roundtrip(s: Seq<char>)
    requires
        name_ok(s),
    ensures
        de_matches(name_bytes(s), s),
{
    assert forall|i: int| 0 <= i < s.len() implies (#[trigger] name_bytes(s)[i]) as char == s[i]
        && name_bytes(s)[i] != 0 by {
        assert(is_name_char(s[i]));
        lemma_name_char_byte(s[i]);
        assert(name_bytes(s)[i] == s[i] as u8);
    }
}

/// The entry record decoded from the first `DIRENTRY_SIZE` bytes of `s`.
#[verifier::opaque]
pub open spec fn de_of(s: Seq<u8>) -> DirEntryV {
    DirEntryV {
        inum: le64(s.subrange(0, 8)) as u64,
        name: s.subrange(8, DIRENTRY_SIZE as int),
    }
}

/// Encode `de` as `DIRENTRY_SIZE` packed bytes.
pub fn encode_direntry(de: &DirEntry) -> (r: Vec<u8>)
    requires
        de.name@.len() == DIRNAME_SIZE,
    ensures
        r@.len() == DIRENTRY_SIZE,
        de_of(r@) == de@,
{
    proof {
        reveal(de_of);
    }
    let mut r = u64_to_le(de.inum);
    let ghost g_inum = r@;
    let mut name = crate::bytes::read_bytes(&de.name, 0, DIRNAME_SIZE);
    let ghost g_name = name@;
    r.append(&mut name);
    proof {
        assert(g_name =~= de.name@);
        assert(r@.subrange(0, 8) =~= g_inum);
        assert(r@.subrange(8, DIRENTRY_SIZE as int) =~= de.name@);
        assert(de_of(r@) =~= de@);
    }
    r
}

/// Whether `name` is a valid directory entry name.
pub fn valid_name(name: &str) -> (r: bool)
    ensures
        r == name_ok(name@),
{
    let n: usize = name.unicode_len();
    if n == 0 || n >= DIRNAME_SIZE {
        return false;
    }
    let mut i: usize = 0;
    while i < n
        invariant
            n == name@.len(),
            i <= n,
            forall|k: int| 0 <= k < i ==> is_name_char(#[trigger] name@[k]),
        decreases n - i,
    {
        let c = name.get_char(i);
        let u: u32 = c as u32;
        if !((48 <= u && u <= 57) || (65 <= u && u <= 90) || (97 <= u && u <= 122)) {
            return false;
        }
        i = i + 1;
    }
    true
}

/// Whether the packed name field starting at `off + 8` inside entry bytes
/// at `off` of `b` reads back as exactly `q`.
fn name_matches_at(b: &Vec<u8>, off: usize, q: &str) -> (r: bool)
    requires
        off + DIRENTRY_SIZE <= b@.len(),
    ensures
        r == de_matches(b@.subrange(off + 8, off + DIRENTRY_SIZE as int), q@),
{
    let _l: usize = b.len();
    let ghost f = b@.subrange(off + 8, off + DIRENTRY_SIZE as int);
    let n: usize = q.unicode_len();
    if n > DIRNAME_SIZE {
        return false;
    }
    let mut i: usize = 0;
    while i < n
        invariant
            off + DIRENTRY_SIZE <= b@.len(),
            _l == b@.len(),
            f == b@.subrange(off + 8, off + DIRENTRY_SIZE as int),
            n == q@.len(),
            n <= DIRNAME_SIZE,
            i <= n,
            forall|k: int| 0 <= k < i ==> (#[trigger] f[k]) as char == q@[k] && f[k] != 0,
        decreases n - i,
    {
        let byte: u8 = b[off + 8 + i];
        proof {
            assert(f[i as int] == b@[off + 8 + i]);
        }
        if byte == 0 {
            return false;
        }
        let c = q.get_char(i);
        if byte as char != c {
            return false;
        }
        i = i + 1;
    }
    if n < DIRNAME_SIZE {
        let byte: u8 = b[off + 8 + n];
        proof {
            assert(f[n as int] == b@[off + 8 + n]);
        }
        if byte != 0 {
            return false;
        }
    }
    true
}


/// Directory entry slots stored per block.
pub open spec fn slots_per_block(sb: SuperBlock) -> int {
    sb.block_size as int / DIRENTRY_SIZE as int
}

/// Usable bytes per directory block: whole entry slots only, any tail is
/// padding.
pub open spec fn useful_bytes(sb: SuperBlock) -> int {
    sb.block_size - sb.block_size as int % DIRENTRY_SIZE as int
}

/// The entry stored in logical slot `s` of directory `dirv` on disk `d`:
/// slot `s` lives in the `s / slots_per_block`-th direct block, at byte
/// offset `DIRENTRY_SIZE * (s % slots_per_block)`.
pub open spec fn entry_at(d: Seq<Seq<u8>>, sb: SuperBlock, dirv: DInodeV, s: int) -> DirEntryV {
    let off = DIRENTRY_SIZE * (s % slots_per_block(sb));
    de_of(d[dirv.direct[s / slots_per_block(sb)] as int].subrange(off, off + DIRENTRY_SIZE))
}

/// The byte offset of slot `s` in the directory's logical stream.
pub open spec fn slot_offset(sb: SuperBlock, s: int) -> int {
    (s / slots_per_block(sb)) * useful_bytes(sb) + DIRENTRY_SIZE * (s % slots_per_block(sb))
}

/// The index of the first unassigned direct pointer at or after `i`,
/// or `NDIRECT` if they are all assigned.
pub open spec fn first_zero(direct: Seq<u64>, i: int) -> int
    decreases NDIRECT - i,
{
    if i < 0 || i >= NDIRECT {
        NDIRECT as int
    } else if direct[i] == 0 {
        i
    } else {
        first_zero(direct, i + 1)
    }
}

/// Number of direct blocks a directory scan visits: assigned blocks, up
/// to the block count its size occupies, never beyond `NDIRECT`.
pub open spec fn scan_blocks(sb: SuperBlock, dirv: DInodeV) -> int {
    let by_size = crate::layout::ceil_div(dirv.size as int, useful_bytes(sb));
    let fz = first_zero(dirv.direct, 0);
    if by_size <= fz && by_size <= NDIRECT {
        by_size
    } else if fz <= NDIRECT {
        fz
    } else {
        NDIRECT as int
    }
}

/// Number of entry slots a directory scan visits.
pub open spec fn scan_slots(sb: SuperBlock, dirv: DInodeV) -> int {
    scan_blocks(sb, dirv) * slots_per_block(sb)
}

/// The first slot in `[s, end)` whose stored name reads back as `q`, or
/// `end` if none does.
pub open spec fn find_match_from(
    d: Seq<Seq<u8>>,
    sb: SuperBlock,
    dirv: DInodeV,
    q: Seq<char>,
    s: int,
    end: int,
) -> int
    decreases end - s,
{
    if s >= end {
        end
    } else if de_matches(entry_at(d, sb, dirv, s).name, q) {
        s
    } else {
        find_match_from(d, sb, dirv, q, s + 1, end)
    }
}

/// The first slot in `[s, end)` whose entry is empty (target inode 0),
/// or `end` if none is.
pub open spec fn find_free_from(
    d: Seq<Seq<u8>>,
    sb: SuperBlock,
    dirv: DInodeV,
    s: int,
    end: int,
) -> int
    decreases end - s,
{
    if s >= end {
        end
    } else if entry_at(d, sb, dirv, s).inum == 0 {
        s
    } else {
        find_free_from(d, sb, dirv, s + 1, end)
    }
}

/// A directory inode in good shape on disk `d`: a full pointer list, a
/// size within the direct capacity, and every scanned block a distinct,
/// allocated data block.
pub open spec fn dir_ok(d: Seq<Seq<u8>>, sb: SuperBlock, dirv: DInodeV) -> bool {
    &&& dirv.direct.len() == NDIRECT
    &&& dirv.size <= NDIRECT * useful_bytes(sb)
    &&& dirv.size % DIRENTRY_SIZE == 0
    &&& forall|t: int|
        0 <= t < scan_blocks(sb, dirv) ==> sb.datastart <= #[trigger] dirv.direct[t]
            < sb.datastart + sb.ndatablocks && bit_of(d, dirv.direct[t] - sb.datastart)
    &&& forall|t1: int, t2: int|
        0 <= t1 < t2 < scan_blocks(sb, dirv) ==> #[trigger] dirv.direct[t1] != #[trigger]
        dirv.direct[t2]
}

/// Every scanned entry of the directory names an inode on this disk.
pub open spec fn entries_wf(d: Seq<Seq<u8>>, sb: SuperBlock, dirv: DInodeV) -> bool {
    forall|s: int|
        0 <= s < scan_slots(sb, dirv) ==> (#[trigger] entry_at(d, sb, dirv, s)).inum
            < sb.ninodes
}

/// Basic facts about directory slot geometry for a valid superblock.
pub proof fn lemma_dir_geometry(sb: SuperBlock)
    requires
        sb.valid(),
    ensures
        4 <= slots_per_block(sb),
        useful_bytes(sb) == DIRENTRY_SIZE * slots_per_block(sb),
        DIRENTRY_SIZE * slots_per_block(sb) <= sb.block_size,
        88 <= useful_bytes(sb) <= sb.block_size,
{
    let spb = slots_per_block(sb);
    let rem = sb.block_size as int % DIRENTRY_SIZE as int;
    assert(spb >= 4 && sb.block_size == spb * DIRENTRY_SIZE + rem && 0 <= rem && rem
        < DIRENTRY_SIZE) by (nonlinear_arith)
        requires
            DINODE_SIZE <= sb.block_size,
            spb == sb.block_size as int / DIRENTRY_SIZE as int,
            rem == sb.block_size as int % DIRENTRY_SIZE as int,
    ;
}

/// The block and in-block coordinates of slot `t * slots_per_block + u`.
pub proof fn lemma_slot_coords(sb: SuperBlock, t: int, u: int)
    requires
        sb.valid(),
        0 <= t,
        0 <= u < slots_per_block(sb),
    ensures
        (t * slots_per_block(sb) + u) / slots_per_block(sb) == t,
        (t * slots_per_block(sb) + u) % slots_per_block(sb) == u,
{
    lemma_dir_geometry(sb);
    lemma_fundamental_div_mod_converse(t * slots_per_block(sb) + u, slots_per_block(sb), t, u);
}

/// Every slot's bytes lie inside its block.
pub proof fn lemma_slot_in_block(sb: SuperBlock, s: int)
    requires
        sb.valid(),
        0 <= s,
    ensures
        0 <= s % slots_per_block(sb) < slots_per_block(sb),
        0 <= DIRENTRY_SIZE * (s % slots_per_block(sb)),
        DIRENTRY_SIZE * (s % slots_per_block(sb)) + DIRENTRY_SIZE <= sb.block_size,
        0 <= s / slots_per_block(sb),
    decreases 0int,
{
    lemma_dir_geometry(sb);
    let spb = slots_per_block(sb);
    assert(0 <= s % spb < spb && 0 <= s / spb) by (nonlinear_arith)
        requires
            spb >= 4,
            s >= 0,
    ;
    assert(DIRENTRY_SIZE * (s % spb) + DIRENTRY_SIZE <= DIRENTRY_SIZE * spb) by (nonlinear_arith)
        requires
            0 <= s % spb < spb,
    ;
}

/// The record every directory starts from: the root inode written by the
/// directory layer's format.
pub open spec fn root_dinode() -> DInodeV {
    DInodeV { ft: FType::TDir, nlink: 1, size: 0, direct: dinode_default().direct }
}


/// The directory-layer filesystem: the inode layer plus directory
/// entries packed into directory inodes' data blocks.
pub struct DirFS {
    /// The underlying inode layer.
    pub fs: InodeFS,
}

impl View for DirFS {
    type V = Seq<Seq<u8>>;

    open spec fn view(&self) -> Seq<Seq<u8>> {
        self.fs@
    }
}

impl DirFS {
    /// The filesystem is well formed when the layers below are.
    pub open spec fn wf(self) -> bool {
        self.fs.wf()
    }

    /// The superblock stored in block 0.
    pub open spec fn sb(self) -> SuperBlock {
        self.fs.sb()
    }

    /// Whether `sb` satisfies all layout invariants.
    pub fn sb_valid(sb: &SuperBlock) -> (r: bool)
        ensures
            r == sb.valid(),
    {
        BlockFS::sb_valid(sb)
    }

    /// Format a fresh zeroed device with the given superblock.  Every
    /// inode starts out free, except that inode 1 is written as the root
    /// directory (an empty `TDir` with one link) when the table has room
    /// for it.
    pub fn mkfs(sb: &SuperBlock) -> (r: Result<DirFS, DirFSError>)
        ensures
            sb.valid() <==> r is Ok,
            !sb.valid() ==> r == Err::<DirFS, DirFSError>(
                DirFSError::DirectorySystemError(
                    InodeFSError::InodeSystemError(BlockFSError::SuperBlockInvalid),
                ),
            ),
            r matches Ok(fs) ==> {
                &&& fs.wf()
                &&& fs.fs.fs.device.block_size == sb.block_size
                &&& fs.fs.fs.device.nblocks == sb.nblocks
                &&& sb_of(fs@) == *sb
                &&& forall|k: int|
                    0 <= k < sb.ninodes && k != 1 ==> #[trigger] inode_v(fs@, k)
                        == dinode_default()
                &&& sb.ninodes >= 2 ==> inode_v(fs@, 1) == root_dinode()
                &&& forall|i: int| 0 <= i < sb.ndatablocks ==> !(#[trigger] bit_of(fs@, i))
                &&& forall|j: int|
                    0 <= j < sb.ndatablocks ==> #[trigger] data_block(fs@, j) == zeros(
                        sb.block_size as int,
                    )
            },
    {
        let mut fs = match InodeFS::mkfs(sb) {
            Ok(fs) => fs,
            Err(e) => {
                return Err(DirFSError::DirectorySystemError(e));
            },
        };
        if sb.ninodes >= 2 {
            let mut root = DInode::default();
            root.ft = FType::TDir;
            root.nlink = 1;
            match fs.i_put(&Inode::new(1, root)) {
                Ok(_) => {},
                Err(e) => {
                    proof {
                        assert(false);
                    }
                    return Err(DirFSError::DirectorySystemError(e));
                },
            }
            proof {
                assert(inode_v(fs@, 1) =~= root_dinode());
            }
        }
        Ok(DirFS { fs })
    }

    /// Mount an existing device, as the block layer does.
    pub fn mountfs(dev: Device) -> (r: Result<DirFS, DirFSError>)
        requires
            dev.wf(),
        ensures
            dev@.len() > 0 && dev.block_size >= crate::layout::SUPERBLOCK_SIZE && sb_of(
                dev@,
            ).valid() && sb_of(dev@).block_size == dev.block_size && sb_of(dev@).nblocks
                == dev.nblocks ==> (r matches Ok(fs) && fs@ == dev@ && fs.wf()),
            !(dev@.len() > 0 && dev.block_size >= crate::layout::SUPERBLOCK_SIZE && sb_of(
                dev@,
            ).valid()) ==> r == Err::<DirFS, DirFSError>(
                DirFSError::DirectorySystemError(
                    InodeFSError::InodeSystemError(BlockFSError::SuperBlockInvalid),
                ),
            ),
            dev@.len() > 0 && dev.block_size >= crate::layout::SUPERBLOCK_SIZE && sb_of(
                dev@,
            ).valid() && !(sb_of(dev@).block_size == dev.block_size && sb_of(dev@).nblocks
                == dev.nblocks) ==> r == Err::<DirFS, DirFSError>(
                DirFSError::DirectorySystemError(
                    InodeFSError::InodeSystemError(BlockFSError::DeviceConfigurationInvalid),
                ),
            ),
    {
        match InodeFS::mountfs(dev) {
            Ok(fs) => Ok(DirFS { fs }),
            Err(e) => Err(DirFSError::DirectorySystemError(e)),
        }
    }

    /// Release the filesystem and hand the device back.
    pub fn unmountfs(self) -> (d: Device)
        ensures
            d == self.fs.fs.device,
    {
        self.fs.unmountfs()
    }

    /// Read block `i` as a whole.
    pub fn b_get(&self, i: u64) -> (r: Result<Block, DirFSError>)
        ensures
            i < self@.len() ==> (r matches Ok(b) && b.block_no == i && b@ == self@[i as int]),
            i >= self@.len() ==> r == Err::<Block, DirFSError>(
                DirFSError::DirectorySystemError(
                    InodeFSError::InodeSystemError(
                        BlockFSError::FileSystemError(DeviceError::BlockOutOfRange),
                    ),
                ),
            ),
    {
        match self.fs.b_get(i) {
            Ok(b) => Ok(b),
            Err(e) => Err(DirFSError::DirectorySystemError(e)),
        }
    }

    /// Write `b` back to block `b.block_no` as a whole.
    pub fn b_put(&mut self, b: &Block) -> (r: Result<(), DirFSError>)
        ensures
            final(self).fs.fs.device.block_size == old(self).fs.fs.device.block_size,
            final(self).fs.fs.device.nblocks == old(self).fs.fs.device.nblocks,
            b.block_no < old(self)@.len() && b@.len() == old(self).fs.fs.device.block_size ==> r
                == Ok::<(), DirFSError>(()) && final(self)@ == old(self)@.update(
                b.block_no as int,
                b@,
            ),
            !(b.block_no < old(self)@.len() && b@.len() == old(self).fs.fs.device.block_size)
                ==> r is Err && final(self)@ == old(self)@,
            old(self).wf() && b.block_no != 0 && r is Ok ==> final(self).wf() && final(self).sb()
                == old(self).sb(),
            old(self).wf() && old(self).sb().datastart <= b.block_no && b.block_no < old(
                self,
            ).sb().datastart + old(self).sb().ndatablocks && r is Ok ==> same_inodes(
                old(self)@,
                final(self)@,
            ) && same_bits(old(self)@, final(self)@) && same_data_except(
                old(self)@,
                final(self)@,
                b.block_no - old(self).sb().datastart,
            ) && data_block(final(self)@, b.block_no - old(self).sb().datastart) == b@,
    {
        match self.fs.b_put(b) {
            Ok(_) => Ok(()),
            Err(e) => Err(DirFSError::DirectorySystemError(e)),
        }
    }

    /// Clear the allocation bit of data block `i` (data-relative).
    pub fn b_free(&mut self, i: u64) -> (r: Result<(), DirFSError>)
        requires
            old(self).wf(),
        ensures
            final(self).wf(),
            final(self).fs.fs.device.block_size == old(self).fs.fs.device.block_size,
            final(self).fs.fs.device.nblocks == old(self).fs.fs.device.nblocks,
            final(self).sb() == old(self).sb(),
            same_inodes(old(self)@, final(self)@),
            same_data(old(self)@, final(self)@),
            i >= old(self).sb().ndatablocks ==> r == Err::<(), DirFSError>(
                DirFSError::DirectorySystemError(
                    InodeFSError::InodeSystemError(BlockFSError::OutsideOfTheBoundariesError),
                ),
            ) && final(self)@ == old(self)@,
            i < old(self).sb().ndatablocks && !bit_of(old(self)@, i as int) ==> r == Err::<
                (),
                DirFSError,
            >(
                DirFSError::DirectorySystemError(
                    InodeFSError::InodeSystemError(BlockFSError::MemoryAlreadyDeallocated),
                ),
            ) && final(self)@ == old(self)@,
            i < old(self).sb().ndatablocks && bit_of(old(self)@, i as int) ==> r == Ok::<
                (),
                DirFSError,
            >(()) && !bit_of(final(self)@, i as int) && same_bits_except(
                old(self)@,
                final(self)@,
                i as int,
            ),
    {
        match self.fs.b_free(i) {
            Ok(_) => Ok(()),
            Err(e) => Err(DirFSError::DirectorySystemError(e)),
        }
    }

    /// Write a fully zeroed block at data-relative index `i`.
    pub fn b_zero(&mut self, i: u64) -> (r: Result<(), DirFSError>)
        requires
            old(self).wf(),
        ensures
            final(self).wf(),
            final(self).fs.fs.device.block_size == old(self).fs.fs.device.block_size,
            final(self).fs.fs.device.nblocks == old(self).fs.fs.device.nblocks,
            final(self).sb() == old(self).sb(),
            same_inodes(old(self)@, final(self)@),
            same_bits(old(self)@, final(self)@),
            i >= old(self).sb().ndatablocks ==> r is Err && final(self)@ == old(self)@,
            i < old(self).sb().ndatablocks ==> r == Ok::<(), DirFSError>(()) && data_block(
                final(self)@,
                i as int,
            ) == zeros(old(self).sb().block_size as int) && same_data_except(
                old(self)@,
                final(self)@,
                i as int,
            ),
    {
        match self.fs.b_zero(i) {
            Ok(_) => Ok(()),
            Err(e) => Err(DirFSError::DirectorySystemError(e)),
        }
    }

    /// First-fit allocation of a data block.
    pub fn b_alloc(&mut self) -> (r: Result<u64, DirFSError>)
        requires
            old(self).wf(),
        ensures
            final(self).wf(),
            final(self).fs.fs.device.block_size == old(self).fs.fs.device.block_size,
            final(self).fs.fs.device.nblocks == old(self).fs.fs.device.nblocks,
            final(self).sb() == old(self).sb(),
            same_inodes(old(self)@, final(self)@),
            r matches Err(e) ==> e == DirFSError::DirectorySystemError(
                InodeFSError::InodeSystemError(BlockFSError::OutsideOfTheBoundariesError),
            ) && final(self)@ == old(self)@ && (forall|m: int|
                0 <= m < old(self).sb().ndatablocks ==> #[trigger] bit_of(old(self)@, m)),
            r matches Ok(g) ==> {
                &&& g < old(self).sb().ndatablocks
                &&& !bit_of(old(self)@, g as int)
                &&& forall|m: int| 0 <= m < g ==> #[trigger] bit_of(old(self)@, m)
                &&& bit_of(final(self)@, g as int)
                &&& same_bits_except(old(self)@, final(self)@, g as int)
                &&& data_block(final(self)@, g as int) == zeros(
                    old(self).sb().block_size as int,
                )
                &&& same_data_except(old(self)@, final(self)@, g as int)
            },
    {
        match self.fs.b_alloc() {
            Ok(g) => Ok(g),
            Err(e) => Err(DirFSError::DirectorySystemError(e)),
        }
    }

    /// Read and decode the superblock from block 0.
    pub fn sup_get(&self) -> (r: Result<SuperBlock, DirFSError>)
        ensures
            self@.len() > 0 && self@[0].len() >= crate::layout::SUPERBLOCK_SIZE ==> r == Ok::<
                SuperBlock,
                DirFSError,
            >(self.sb()),
            !(self@.len() > 0 && self@[0].len() >= crate::layout::SUPERBLOCK_SIZE) ==> r is Err,
    {
        match self.fs.sup_get() {
            Ok(s) => Ok(s),
            Err(e) => Err(DirFSError::DirectorySystemError(e)),
        }
    }

    /// Serialize `sup` into a zeroed block and write it at block 0.
    pub fn sup_put(&mut self, sup: &SuperBlock) -> (r: Result<(), DirFSError>)
        requires
            sup.block_size <= usize::MAX,
        ensures
            final(self).fs.fs.device.block_size == old(self).fs.fs.device.block_size,
            final(self).fs.fs.device.nblocks == old(self).fs.fs.device.nblocks,
            sup.block_size >= crate::layout::SUPERBLOCK_SIZE && old(self)@.len() > 0
                && sup.block_size == old(self).fs.fs.device.block_size ==> r == Ok::<
                (),
                DirFSError,
            >(()) && sb_of(final(self)@) == *sup && (forall|i: int|
                0 < i < old(self)@.len() ==> final(self)@[i] == old(self)@[i]),
            !(sup.block_size >= crate::layout::SUPERBLOCK_SIZE && old(self)@.len() > 0
                && sup.block_size == old(self).fs.fs.device.block_size) ==> r is Err
                && final(self)@ == old(self)@,
    {
        match self.fs.sup_put(sup) {
            Ok(_) => Ok(()),
            Err(e) => Err(DirFSError::DirectorySystemError(e)),
        }
    }

    /// Read inode `i` from the inode table.
    pub fn i_get(&self, i: u64) -> (r: Result<Inode, DirFSError>)
        requires
            self.wf(),
        ensures
            i < self.sb().ninodes ==> (r matches Ok(ino) && ino.inum == i && ino.disk_node@
                == inode_v(self@, i as int) && ino.disk_node.direct_blocks@.len() == NDIRECT),
            i >= self.sb().ninodes ==> r == Err::<Inode, DirFSError>(
                DirFSError::DirectorySystemError(
                    InodeFSError::InodeSystemError(BlockFSError::OutsideOfTheBoundariesError),
                ),
            ),
    {
        match self.fs.i_get(i) {
            Ok(ino) => Ok(ino),
            Err(e) => Err(DirFSError::DirectorySystemError(e)),
        }
    }

    /// Write the record of `ino` into slot `ino.inum` of the inode table.
    pub fn i_put(&mut self, ino: &Inode) -> (r: Result<(), DirFSError>)
        requires
            old(self).wf(),
            ino.disk_node.direct_blocks@.len() == NDIRECT,
        ensures
            final(self).wf(),
            final(self).fs.fs.device.block_size == old(self).fs.fs.device.block_size,
            final(self).fs.fs.device.nblocks == old(self).fs.fs.device.nblocks,
            final(self).sb() == old(self).sb(),
            same_bits(old(self)@, final(self)@),
            same_data(old(self)@, final(self)@),
            ino.inum >= old(self).sb().ninodes ==> r == Err::<(), DirFSError>(
                DirFSError::DirectorySystemError(
                    InodeFSError::InodeSystemError(BlockFSError::OutsideOfTheBoundariesError),
                ),
            ) && final(self)@ == old(self)@,
            ino.inum < old(self).sb().ninodes ==> r == Ok::<(), DirFSError>(()) && inode_v(
                final(self)@,
                ino.inum as int,
            ) == ino.disk_node@ && same_inodes_except(old(self)@, final(self)@, ino.inum as int),
    {
        match self.fs.i_put(ino) {
            Ok(_) => Ok(()),
            Err(e) => Err(DirFSError::DirectorySystemError(e)),
        }
    }

    /// Allocate the first free inode with type `ft`.
    pub fn i_alloc(&mut self, ft: FType) -> (r: Result<u64, DirFSError>)
        requires
            old(self).wf(),
        ensures
            final(self).wf(),
            final(self).fs.fs.device.block_size == old(self).fs.fs.device.block_size,
            final(self).fs.fs.device.nblocks == old(self).fs.fs.device.nblocks,
            final(self).sb() == old(self).sb(),
            same_bits(old(self)@, final(self)@),
            same_data(old(self)@, final(self)@),
            r matches Err(e) ==> e == DirFSError::DirectorySystemError(
                InodeFSError::InodeSystemError(BlockFSError::OutsideOfTheBoundariesError),
            ) && final(self)@ == old(self)@ && (forall|m: int|
                1 <= m < old(self).sb().ninodes ==> #[trigger] inode_v(old(self)@, m).ft
                    != FType::TFree),
            r matches Ok(k) ==> {
                &&& 1 <= k < old(self).sb().ninodes
                &&& inode_v(old(self)@, k as int).ft == FType::TFree
                &&& forall|m: int|
                    1 <= m < k ==> #[trigger] inode_v(old(self)@, m).ft != FType::TFree
                &&& inode_v(final(self)@, k as int) == (DInodeV {
                    ft,
                    nlink: 0,
                    size: 0,
                    direct: inode_v(old(self)@, k as int).direct,
                })
                &&& same_inodes_except(old(self)@, final(self)@, k as int)
            },
    {
        match self.fs.i_alloc(ft) {
            Ok(k) => Ok(k),
            Err(e) => Err(DirFSError::DirectorySystemError(e)),
        }
    }

    /// Free inode `i`, releasing its data blocks when its last link is
    /// gone.
    pub fn i_free(&mut self, i: u64) -> (r: Result<(), DirFSError>)
        requires
            old(self).wf(),
        ensures
            final(self).wf(),
            final(self).fs.fs.device.block_size == old(self).fs.fs.device.block_size,
            final(self).fs.fs.device.nblocks == old(self).fs.fs.device.nblocks,
            final(self).sb() == old(self).sb(),
            same_data(old(self)@, final(self)@),
            i >= old(self).sb().ninodes ==> r is Err && final(self)@ == old(self)@,
            i < old(self).sb().ninodes && inode_v(old(self)@, i as int).ft == FType::TFree ==> r
                == Err::<(), DirFSError>(
                DirFSError::DirectorySystemError(InodeFSError::InodeAlreadyDeallocatedError),
            ) && final(self)@ == old(self)@,
            i < old(self).sb().ninodes && inode_v(old(self)@, i as int).ft != FType::TFree
                && inode_v(old(self)@, i as int).nlink > 0 ==> r == Ok::<(), DirFSError>(())
                && final(self)@ == old(self)@,
            i < old(self).sb().ninodes && inode_v(old(self)@, i as int).ft != FType::TFree
                && inode_v(old(self)@, i as int).nlink == 0 ==> {
                let di = inode_v(old(self)@, i as int);
                let sb = old(self).sb();
                &&& (r is Ok <==> free_ok(sb, old(self)@, di))
                &&& r is Ok ==> inode_v(final(self)@, i as int) == (DInodeV {
                    ft: FType::TFree,
                    nlink: di.nlink,
                    size: di.size,
                    direct: dinode_default().direct,
                }) && same_inodes_except(old(self)@, final(self)@, i as int) && (forall|m: int|
                    0 <= m < sb.ndatablocks ==> #[trigger] bit_of(final(self)@, m) == (bit_of(
                        old(self)@,
                        m,
                    ) && !freed_by(sb, di, nvalid_of(sb, di), m)))
            },
    {
        match self.fs.i_free(i) {
            Ok(_) => Ok(()),
            Err(e) => Err(DirFSError::DirectorySystemError(e)),
        }
    }

    /// Truncate `inode` and write it back.
    pub fn i_trunc(&mut self, inode: &mut Inode) -> (r: Result<(), DirFSError>)
        requires
            old(self).wf(),
            old(inode).disk_node.direct_blocks@.len() == NDIRECT,
        ensures
            final(self).wf(),
            final(self).fs.fs.device.block_size == old(self).fs.fs.device.block_size,
            final(self).fs.fs.device.nblocks == old(self).fs.fs.device.nblocks,
            final(self).sb() == old(self).sb(),
            same_data(old(self)@, final(self)@),
            final(inode).inum == old(inode).inum,
            r is Ok <==> free_ok(old(self).sb(), old(self)@, old(inode).disk_node@) && old(
                inode,
            ).inum < old(self).sb().ninodes,
            r is Ok ==> {
                let di = old(inode).disk_node@;
                let sb = old(self).sb();
                &&& final(inode).disk_node@ == (DInodeV {
                    ft: di.ft,
                    nlink: di.nlink,
                    size: 0,
                    direct: dinode_default().direct,
                })
                &&& inode_v(final(self)@, old(inode).inum as int) == final(inode).disk_node@
                &&& same_inodes_except(old(self)@, final(self)@, old(inode).inum as int)
                &&& forall|m: int|
                    0 <= m < sb.ndatablocks ==> #[trigger] bit_of(final(self)@, m) == (bit_of(
                        old(self)@,
                        m,
                    ) && !freed_by(sb, di, nvalid_of(sb, di), m))
            },
    {
        match self.fs.i_trunc(inode) {
            Ok(_) => Ok(()),
            Err(e) => Err(DirFSError::DirectorySystemError(e)),
        }
    }

    /// Build a directory entry for `inum` under `name`; refuses an
    /// invalid name.
    pub fn new_de(inum: u64, name: &str) -> (r: Option<DirEntry>)
        ensures
            name_ok(name@) <==> r is Some,
            r matches Some(de) ==> de.inum == inum && de.name@ == name_bytes(name@)
                && de.name@.len() == DIRNAME_SIZE,
    {
        let mut de = DirEntry { inum, name: crate::bytes::zero_vec(DIRNAME_SIZE) };
        match Self::set_name_str(&mut de, name) {
            Some(_) => Some(de),
            None => None,
        }
    }

    /// The name stored in `de`: the characters of the name field up to
    /// its first terminator.  A field reads back as at most one name
    /// (`lemma_de_matches_unique`), so the contract pins the result.
    pub fn get_name_str(de: &DirEntry) -> (r: String)
        requires
            de.name@.len() == DIRNAME_SIZE,
        ensures
            de_matches(de.name@, r@),
    {
        let mut n: usize = 0;
        while n < DIRNAME_SIZE && de.name[n] != 0
            invariant
                de.name@.len() == DIRNAME_SIZE,
                n <= DIRNAME_SIZE,
                forall|k: int| 0 <= k < n ==> de.name@[k] != 0,
            decreases DIRNAME_SIZE - n,
        {
            n = n + 1;
        }
        let mut r = String::new();
        let mut i: usize = 0;
        while i < n
            invariant
                de.name@.len() == DIRNAME_SIZE,
                n <= DIRNAME_SIZE,
                forall|k: int| 0 <= k < n ==> de.name@[k] != 0,
                i <= n,
                r@.len() == i,
                forall|k: int| 0 <= k < i ==> #[trigger] r@[k] == de.name@[k] as char,
            decreases n - i,
        {
            string_push_char(&mut r, de.name[i] as char);
            i = i + 1;
        }
        proof {
            assert forall|k: int| 0 <= k < r@.len() implies (#[trigger] de.name@[k]) as char
                == r@[k] && de.name@[k] != 0 by {}
        }
        r
    }

    /// Validate `name` and store it zero-padded in the name field of
    /// `de`.  Refuses an empty name, a name that fills or exceeds the
    /// field, and any character that is not ASCII alphanumeric.
    pub fn set_name_str(de: &mut DirEntry, name: &str) -> (r: Option<()>)
        ensures
            name_ok(name@) <==> r is Some,
            r is Some ==> final(de).inum == old(de).inum && final(de).name@ == name_bytes(name@)
                && final(de).name@.len() == DIRNAME_SIZE,
            r is None ==> *final(de) == *old(de),
    {
        if !valid_name(name) {
            return None;
        }
        let n: usize = name.unicode_len();
        let mut field: Vec<u8> = Vec::new();
        let mut i: usize = 0;
        while i < n
            invariant
                n == name@.len(),
                name_ok(name@),
                i <= n,
                field@.len() == i,
                forall|k: int| 0 <= k < i ==> #[trigger] field@[k] == name@[k] as u8,
            decreases n - i,
        {
            let c = name.get_char(i);
            field.push(c as u8);
            i = i + 1;
        }
        while i < DIRNAME_SIZE
            invariant
                n == name@.len(),
                n <= i,
                i <= DIRNAME_SIZE,
                field@.len() == i,
                forall|k: int| 0 <= k < n ==> #[trigger] field@[k] == name@[k] as u8,
                forall|k: int| n <= k < i ==> #[trigger] field@[k] == 0u8,
            decreases DIRNAME_SIZE - i,
        {
            field.push(0);
            i = i + 1;
        }
        proof {
            assert(field@ =~= name_bytes(name@));
        }
        de.name = field;
        Some(())
    }
}

/// Relies on `String::push`: appends exactly the given character to the
/// end of the string.
#[verifier::external_body]
fn string_push_char(s: &mut String, c: char)
    ensures
        final(s)@ == old(s)@.push(c),
{
    s.push(c);
}


/// `first_zero` never points before its starting index nor past the list.
pub proof fn lemma_fz_ge(direct: Seq<u64>, i: int)
    requires
        0 <= i <= NDIRECT,
    ensures
        i <= first_zero(direct, i) <= NDIRECT,
    decreases NDIRECT - i,
{
    if i < NDIRECT && direct[i] != 0 {
        lemma_fz_ge(direct, i + 1);
    }
}

/// Skipping a nonzero prefix does not move the first unassigned pointer.
pub proof fn lemma_fz_from(direct: Seq<u64>, i: int, t: int)
    requires
        0 <= i <= t <= NDIRECT,
        forall|u: int| i <= u < t ==> direct[u] != 0,
    ensures
        first_zero(direct, i) == first_zero(direct, t),
    decreases t - i,
{
    if i < t {
        assert(direct[i] != 0);
        lemma_fz_from(direct, i + 1, t);
    }
}





/// The logical byte offset of slot `s` is exactly `DIRENTRY_SIZE * s`.
pub proof fn lemma_slot_offset(sb: SuperBlock, s: int)
    requires
        sb.valid(),
        0 <= s,
    ensures
        slot_offset(sb, s) == DIRENTRY_SIZE * s,
{
    lemma_dir_geometry(sb);
    let spb = slots_per_block(sb);
    lemma_fundamental_div_mod(s, spb);
    assert((s / spb) * (DIRENTRY_SIZE * spb) + DIRENTRY_SIZE * (s % spb) == DIRENTRY_SIZE * s)
        by (nonlinear_arith)
        requires
            s == spb * (s / spb) + s % spb,
    ;
}

/// The scan window of any directory on a valid superblock is well formed.
pub proof fn lemma_scan_nonneg(sb: SuperBlock, dirv: DInodeV)
    requires
        sb.valid(),
    ensures
        0 <= scan_blocks(sb, dirv) <= NDIRECT,
        0 <= scan_slots(sb, dirv),
        scan_slots(sb, dirv) == scan_blocks(sb, dirv) * slots_per_block(sb),
        scan_slots(sb, dirv) <= NDIRECT * slots_per_block(sb),
{
    lemma_dir_geometry(sb);
    lemma_fz_ge(dirv.direct, 0);
    let useful = useful_bytes(sb);
    let by_size = crate::layout::ceil_div(dirv.size as int, useful);
    assert(by_size >= 0) by (nonlinear_arith)
        requires
            dirv.size >= 0,
            useful >= 88,
            by_size == dirv.size as int / useful + if dirv.size as int % useful == 0 {
                0int
            } else {
                1int
            },
    ;
    assert(0 <= scan_blocks(sb, dirv) * slots_per_block(sb) <= NDIRECT * slots_per_block(sb))
        by (nonlinear_arith)
        requires
            0 <= scan_blocks(sb, dirv) <= NDIRECT,
            slots_per_block(sb) >= 4,
    ;
}

/// The first match lies between the scan start and its end.
pub proof fn lemma_find_match_bounds(
    d: Seq<Seq<u8>>,
    sb: SuperBlock,
    dirv: DInodeV,
    q: Seq<char>,
    s0: int,
    end: int,
)
    requires
        s0 <= end,
    ensures
        s0 <= find_match_from(d, sb, dirv, q, s0, end) <= end,
    decreases end - s0,
{
    if s0 < end && !de_matches(entry_at(d, sb, dirv, s0).name, q) {
        lemma_find_match_bounds(d, sb, dirv, q, s0 + 1, end);
    }
}

/// Skipping slots that do not match leaves the first match unchanged.
pub proof fn lemma_find_match_skip(
    d: Seq<Seq<u8>>,
    sb: SuperBlock,
    dirv: DInodeV,
    q: Seq<char>,
    s0: int,
    f: int,
    end: int,
)
    requires
        0 <= s0 <= f <= end,
        forall|s: int|
            s0 <= s < f ==> !de_matches(#[trigger] entry_at(d, sb, dirv, s).name, q),
    ensures
        find_match_from(d, sb, dirv, q, s0, end) == find_match_from(d, sb, dirv, q, f, end),
    decreases f - s0,
{
    if s0 < f {
        lemma_find_match_skip(d, sb, dirv, q, s0 + 1, f, end);
    }
}

/// Skipping slots that are occupied leaves the first free slot unchanged.
pub proof fn lemma_find_free_skip(
    d: Seq<Seq<u8>>,
    sb: SuperBlock,
    dirv: DInodeV,
    s0: int,
    f: int,
    end: int,
)
    requires
        0 <= s0 <= f <= end,
        forall|s: int| s0 <= s < f ==> (#[trigger] entry_at(d, sb, dirv, s)).inum != 0,
    ensures
        find_free_from(d, sb, dirv, s0, end) == find_free_from(d, sb, dirv, f, end),
    decreases f - s0,
{
    if s0 < f {
        lemma_find_free_skip(d, sb, dirv, s0 + 1, f, end);
    }
}

/// How the entry in slot `t * slots_per_block + u` reads from the raw
/// bytes of its block.
pub proof fn lemma_entry_at_parts(
    d: Seq<Seq<u8>>,
    sb: SuperBlock,
    dirv: DInodeV,
    t: int,
    u: int,
)
    requires
        sb.valid(),
        0 <= t,
        0 <= u < slots_per_block(sb),
        d[dirv.direct[t] as int].len() == sb.block_size,
    ensures
        ({
            let s = t * slots_per_block(sb) + u;
            let db = dirv.direct[t] as int;
            let off = DIRENTRY_SIZE * u;
            &&& t * slots_per_block(sb) <= s < (t + 1) * slots_per_block(sb)
            &&& entry_at(d, sb, dirv, s).inum == le64(d[db].subrange(off, off + 8)) as u64
            &&& entry_at(d, sb, dirv, s).name == d[db].subrange(off + 8, off + DIRENTRY_SIZE)
            &&& slot_offset(sb, s) == t * useful_bytes(sb) + off
            &&& 0 <= off && off + DIRENTRY_SIZE <= sb.block_size
        }),
{
    reveal(de_of);
    let spb = slots_per_block(sb);
    let s = t * spb + u;
    lemma_slot_coords(sb, t, u);
    lemma_slot_in_block(sb, s);
    lemma_dir_geometry(sb);
    assert(t * spb <= s && s < (t + 1) * spb) by (nonlinear_arith)
        requires
            s == t * spb + u,
            0 <= u < spb,
            t >= 0,
    ;
    let db = dirv.direct[t] as int;
    let off = DIRENTRY_SIZE as int * u;
    let slot = d[db].subrange(off, off + DIRENTRY_SIZE as int);
    assert(entry_at(d, sb, dirv, s) == de_of(slot));
    assert(slot.subrange(0, 8) =~= d[db].subrange(off, off + 8));
    assert(slot.subrange(8, DIRENTRY_SIZE as int) =~= d[db].subrange(
        off + 8,
        off + DIRENTRY_SIZE as int,
    ));
}



/// A block scanned without a match extends the no-match prefix by one
/// whole block of slots.
proof fn lemma_nomatch_extend(
    d: Seq<Seq<u8>>,
    sb: SuperBlock,
    dirv: DInodeV,
    q: Seq<char>,
    t: int,
)
    requires
        sb.valid(),
        0 <= t,
        forall|sx: int|
            0 <= sx < t * slots_per_block(sb) ==> !de_matches(
                #[trigger] entry_at(d, sb, dirv, sx).name,
                q,
            ),
        forall|u: int|
            0 <= u < slots_per_block(sb) ==> !de_matches(
                #[trigger] entry_at(d, sb, dirv, t * slots_per_block(sb) + u).name,
                q,
            ),
    ensures
        forall|sx: int|
            0 <= sx < (t + 1) * slots_per_block(sb) ==> !de_matches(
                #[trigger] entry_at(d, sb, dirv, sx).name,
                q,
            ),
{
    let spb = slots_per_block(sb);
    lemma_dir_geometry(sb);
    assert forall|sx: int| 0 <= sx < (t + 1) * spb implies !de_matches(
        #[trigger] entry_at(d, sb, dirv, sx).name,
        q,
    ) by {
        assert((t + 1) * spb == t * spb + spb) by (nonlinear_arith);
        if sx >= t * spb {
            let u2 = sx - t * spb;
            assert(entry_at(d, sb, dirv, t * spb + u2).name == entry_at(d, sb, dirv, sx).name);
        }
    }
}

/// A prefix of clean blocks plus a clean prefix of slots in the current
/// block gives a clean prefix of slots overall.
proof fn lemma_nomatch_upto(
    d: Seq<Seq<u8>>,
    sb: SuperBlock,
    dirv: DInodeV,
    q: Seq<char>,
    t: int,
    u: int,
)
    requires
        sb.valid(),
        0 <= t,
        0 <= u < slots_per_block(sb),
        forall|sx: int|
            0 <= sx < t * slots_per_block(sb) ==> !de_matches(
                #[trigger] entry_at(d, sb, dirv, sx).name,
                q,
            ),
        forall|u2: int|
            0 <= u2 < u ==> !de_matches(
                #[trigger] entry_at(d, sb, dirv, t * slots_per_block(sb) + u2).name,
                q,
            ),
    ensures
        forall|sx: int|
            0 <= sx < t * slots_per_block(sb) + u ==> !de_matches(
                #[trigger] entry_at(d, sb, dirv, sx).name,
                q,
            ),
{
    let spb = slots_per_block(sb);
    assert forall|sx: int| 0 <= sx < t * spb + u implies !de_matches(
        #[trigger] entry_at(d, sb, dirv, sx).name,
        q,
    ) by {
        if sx >= t * spb {
            let u2 = sx - t * spb;
            assert(entry_at(d, sb, dirv, t * spb + u2).name == entry_at(d, sb, dirv, sx).name);
        }
    }
}

/// Scan one directory block for the first slot whose stored name reads
/// back as `name`: returns the slot index within the block and the
/// entry's target inode number.
fn scan_block_for_name(
    block: &Block,
    name: &str,
    Ghost(d): Ghost<Seq<Seq<u8>>>,
    Ghost(sb): Ghost<SuperBlock>,
    Ghost(dirv): Ghost<DInodeV>,
    Ghost(t): Ghost<int>,
) -> (r: Option<(u64, u64)>)
    requires
        sb.valid(),
        0 <= t,
        t < dirv.direct.len(),
        block@ == d[dirv.direct[t] as int],
        block@.len() == sb.block_size,
    ensures
        r is None ==> forall|u: int|
            0 <= u < slots_per_block(sb) ==> !de_matches(
                #[trigger] entry_at(d, sb, dirv, t * slots_per_block(sb) + u).name,
                name@,
            ),
        r matches Some(p) ==> {
            &&& 0 <= p.0 < slots_per_block(sb)
            &&& de_matches(
                entry_at(d, sb, dirv, t * slots_per_block(sb) + p.0).name,
                name@,
            )
            &&& p.1 == entry_at(d, sb, dirv, t * slots_per_block(sb) + p.0).inum
            &&& forall|u: int|
                0 <= u < p.0 ==> !de_matches(
                    #[trigger] entry_at(d, sb, dirv, t * slots_per_block(sb) + u).name,
                    name@,
                )
        },
{
    proof {
        lemma_dir_geometry(sb);
    }
    let bs: u64 = block.len() as u64;
    let spb: u64 = bs / DIRENTRY_SIZE;
    let mut u: u64 = 0;
    while u < spb
        invariant
            sb.valid(),
            0 <= t,
            t < dirv.direct.len(),
            block@ == d[dirv.direct[t] as int],
            block@.len() == sb.block_size,
            bs == sb.block_size,
            spb == slots_per_block(sb),
            u <= spb,
            forall|u2: int|
                0 <= u2 < u ==> !de_matches(
                    #[trigger] entry_at(d, sb, dirv, t * slots_per_block(sb) + u2).name,
                    name@,
                ),
        decreases spb - u,
    {
        proof {
            lemma_entry_at_parts(d, sb, dirv, t, u as int);
        }
        let off: u64 = DIRENTRY_SIZE * u;
        if name_matches_at(block.contents_as_ref(), off as usize, name) {
            let e_inum: u64 = u64_from_le(block.contents_as_ref(), off as usize);
            return Some((u, e_inum));
        }
        u = u + 1;
    }
    None
}

/// Scan one directory block for the first empty slot (target inode 0):
/// returns the slot index within the block.
fn scan_block_for_free(
    block: &Block,
    Ghost(d): Ghost<Seq<Seq<u8>>>,
    Ghost(sb): Ghost<SuperBlock>,
    Ghost(dirv): Ghost<DInodeV>,
    Ghost(t): Ghost<int>,
) -> (r: Option<u64>)
    requires
        sb.valid(),
        0 <= t,
        t < dirv.direct.len(),
        block@ == d[dirv.direct[t] as int],
        block@.len() == sb.block_size,
    ensures
        r is None ==> forall|u: int|
            0 <= u < slots_per_block(sb) ==> (#[trigger] entry_at(
                d,
                sb,
                dirv,
                t * slots_per_block(sb) + u,
            )).inum != 0,
        r matches Some(u0) ==> {
            &&& 0 <= u0 < slots_per_block(sb)
            &&& entry_at(d, sb, dirv, t * slots_per_block(sb) + u0 as int).inum == 0
            &&& forall|u: int|
                0 <= u < u0 ==> (#[trigger] entry_at(
                    d,
                    sb,
                    dirv,
                    t * slots_per_block(sb) + u,
                )).inum != 0
        },
{
    proof {
        lemma_dir_geometry(sb);
    }
    let bs: u64 = block.len() as u64;
    let spb: u64 = bs / DIRENTRY_SIZE;
    let mut u: u64 = 0;
    while u < spb
        invariant
            sb.valid(),
            0 <= t,
            t < dirv.direct.len(),
            block@ == d[dirv.direct[t] as int],
            block@.len() == sb.block_size,
            bs == sb.block_size,
            spb == slots_per_block(sb),
            u <= spb,
            forall|u2: int|
                0 <= u2 < u ==> (#[trigger] entry_at(
                    d,
                    sb,
                    dirv,
                    t * slots_per_block(sb) + u2,
                )).inum != 0,
        decreases spb - u,
    {
        proof {
            lemma_entry_at_parts(d, sb, dirv, t, u as int);
        }
        let off: u64 = DIRENTRY_SIZE * u;
        let e_inum: u64 = u64_from_le(block.contents_as_ref(), off as usize);
        if e_inum == 0 {
            return Some(u);
        }
        u = u + 1;
    }
    None
}


/// Directory entries read only data blocks: two disks with the same data
/// region hold the same entries of a well-placed directory.
proof fn lemma_entries_data_only(
    d1: Seq<Seq<u8>>,
    d2: Seq<Seq<u8>>,
    sb: SuperBlock,
    dirv: DInodeV,
)
    requires
        sb.valid(),
        sb_of(d1) == sb,
        sb_of(d2) == sb,
        forall|t: int|
            0 <= t < scan_blocks(sb, dirv) ==> sb.datastart <= #[trigger] dirv.direct[t]
                < sb.datastart + sb.ndatablocks,
        forall|j: int|
            0 <= j < sb.ndatablocks ==> #[trigger] data_block(d2, j) == data_block(d1, j),
    ensures
        forall|s: int|
            0 <= s < scan_slots(sb, dirv) ==> #[trigger] entry_at(d2, sb, dirv, s) == entry_at(
                d1,
                sb,
                dirv,
                s,
            ),
{
    let spb = slots_per_block(sb);
    lemma_dir_geometry(sb);
    assert forall|s: int| 0 <= s < scan_slots(sb, dirv) implies #[trigger] entry_at(
        d2,
        sb,
        dirv,
        s,
    ) == entry_at(d1, sb, dirv, s) by {
        lemma_slot_in_block(sb, s);
        let t = s / spb;
        assert(t < scan_blocks(sb, dirv)) by (nonlinear_arith)
            requires
                0 <= s < scan_blocks(sb, dirv) * spb,
                spb >= 4,
                t == s / spb,
        ;
        let bw = dirv.direct[t] as int;
        assert(data_block(d2, bw - sb.datastart) == data_block(d1, bw - sb.datastart));
        assert(d2[bw] == d1[bw]);
    }
}

/// Writing one encoded entry into slot `u` of the `t`-th scanned block
/// changes that slot alone: every other scanned slot reads back unchanged.
proof fn lemma_entry_write_frame(
    d0: Seq<Seq<u8>>,
    d1: Seq<Seq<u8>>,
    sb: SuperBlock,
    dirv: DInodeV,
    t: int,
    u: int,
    enc: Seq<u8>,
)
    requires
        sb.valid(),
        disk_wf(d0),
        sb == sb_of(d0),
        dir_ok(d0, sb, dirv),
        sb_of(d1) == sb,
        d1.len() == d0.len(),
        0 <= t < scan_blocks(sb, dirv),
        0 <= u < slots_per_block(sb),
        enc.len() == DIRENTRY_SIZE,
        data_block(d1, dirv.direct[t] - sb.datastart) == splice(
            data_block(d0, dirv.direct[t] - sb.datastart),
            DIRENTRY_SIZE * u,
            enc,
        ),
        forall|j: int|
            0 <= j < sb.ndatablocks && j != dirv.direct[t] - sb.datastart
                ==> #[trigger] data_block(d1, j) == data_block(d0, j),
    ensures
        entry_at(d1, sb, dirv, t * slots_per_block(sb) + u) == de_of(enc),
        forall|s: int|
            0 <= s < scan_slots(sb, dirv) && s != t * slots_per_block(sb) + u
                ==> #[trigger] entry_at(d1, sb, dirv, s) == entry_at(d0, sb, dirv, s),
{
    let spb = slots_per_block(sb);
    lemma_dir_geometry(sb);
    let bw = dirv.direct[t] as int;
    let s0 = t * spb + u;
    assert(sb.datastart <= bw < sb.datastart + sb.ndatablocks);
    assert(d1[bw] == data_block(d1, bw - sb.datastart));
    assert(d0[bw] == data_block(d0, bw - sb.datastart));
    assert(bw < d0.len());
    assert(d0[bw].len() == sb.block_size);
    assert(d1[bw].len() == sb.block_size);
    lemma_entry_at_parts(d1, sb, dirv, t, u);
    lemma_slot_coords(sb, t, u);
    let o = DIRENTRY_SIZE as int * u;
    assert(d1[bw].subrange(o, o + DIRENTRY_SIZE as int) =~= enc);
    assert(entry_at(d1, sb, dirv, s0) == de_of(
        d1[dirv.direct[s0 / spb] as int].subrange(
            DIRENTRY_SIZE as int * (s0 % spb),
            DIRENTRY_SIZE as int * (s0 % spb) + DIRENTRY_SIZE as int,
        ),
    ));
    assert(s0 / spb == t && s0 % spb == u);
    assert(entry_at(d1, sb, dirv, s0) == de_of(enc));
    assert forall|s: int| 0 <= s < scan_slots(sb, dirv) && s != s0 implies #[trigger] entry_at(
        d1,
        sb,
        dirv,
        s,
    ) == entry_at(d0, sb, dirv, s) by {
        lemma_slot_in_block(sb, s);
        let t2 = s / spb;
        let u2 = s % spb;
        assert(t2 < scan_blocks(sb, dirv)) by (nonlinear_arith)
            requires
                0 <= s < scan_blocks(sb, dirv) * spb,
                spb >= 4,
                t2 == s / spb,
        ;
        let b2 = dirv.direct[t2] as int;
        if t2 != t {
            assert(dirv.direct[t2] != dirv.direct[t]);
            assert(data_block(d1, b2 - sb.datastart) == data_block(d0, b2 - sb.datastart));
            assert(d1[b2] == d0[b2]);
        } else {
            lemma_fundamental_div_mod(s, spb);
            assert(u2 != u) by {
                if u2 == u {
                    assert(s == t * spb + u) by (nonlinear_arith)
                        requires
                            s == spb * (s / spb) + s % spb,
                            s / spb == t,
                            s % spb == u,
                    ;
                }
            }
            assert(s == t2 * spb + u2) by (nonlinear_arith)
                requires
                    s == spb * (s / spb) + s % spb,
                    t2 == s / spb,
                    u2 == s % spb,
            ;
            let o2 = DIRENTRY_SIZE as int * u2;
            let o = DIRENTRY_SIZE as int * u;
            assert(o2 + DIRENTRY_SIZE <= o || o + DIRENTRY_SIZE <= o2) by (nonlinear_arith)
                requires
                    o2 == DIRENTRY_SIZE as int * u2,
                    o == DIRENTRY_SIZE as int * u,
                    u2 != u,
                    0 <= u2,
                    0 <= u,
            ;
            assert(d1[b2] == splice(d0[b2], o, enc));
            assert(d1[b2].subrange(o2, o2 + DIRENTRY_SIZE as int) =~= d0[b2].subrange(
                o2,
                o2 + DIRENTRY_SIZE as int,
            ));
        }
    }
}

/// Writing a fresh entry block into a data block no scanned pointer
/// addresses leaves every scanned slot unchanged.
proof fn lemma_entry_append_frame(
    d0: Seq<Seq<u8>>,
    d1: Seq<Seq<u8>>,
    sb: SuperBlock,
    dirv: DInodeV,
    g: int,
)
    requires
        sb.valid(),
        sb_of(d1) == sb,
        sb_of(d0) == sb,
        dir_ok(d0, sb, dirv),
        0 <= g < sb.ndatablocks,
        !bit_of(d0, g),
        forall|j: int|
            0 <= j < sb.ndatablocks && j != g ==> #[trigger] data_block(d1, j) == data_block(
                d0,
                j,
            ),
    ensures
        forall|s: int|
            0 <= s < scan_slots(sb, dirv) ==> #[trigger] entry_at(d1, sb, dirv, s) == entry_at(
                d0,
                sb,
                dirv,
                s,
            ),
{
    let spb = slots_per_block(sb);
    lemma_dir_geometry(sb);
    assert forall|s: int| 0 <= s < scan_slots(sb, dirv) implies #[trigger] entry_at(
        d1,
        sb,
        dirv,
        s,
    ) == entry_at(d0, sb, dirv, s) by {
        lemma_slot_in_block(sb, s);
        let t = s / spb;
        assert(t < scan_blocks(sb, dirv)) by (nonlinear_arith)
            requires
                0 <= s < scan_blocks(sb, dirv) * spb,
                spb >= 4,
                t == s / spb,
        ;
        let bw = dirv.direct[t] as int;
        assert(bit_of(d0, bw - sb.datastart));
        assert(bw - sb.datastart != g);
        assert(data_block(d1, bw - sb.datastart) == data_block(d0, bw - sb.datastart));
        assert(d1[bw] == d0[bw]);
    }
}

impl DirFS {
    /// Look `name` up in the directory `inode`: scan its assigned blocks
    /// slot by slot and return the inode the first matching entry names,
    /// together with the entry's byte offset in the directory stream.
    #[verifier::rlimit(100)]
    pub fn dirlookup(&self, inode: &Inode, name: &str) -> (r: Result<(Inode, u64), DirFSError>)
        requires
            self.wf(),
            inode.disk_node.direct_blocks@.len() == NDIRECT,
        ensures
            inode.disk_node@.ft != FType::TDir <==> r == Err::<(Inode, u64), DirFSError>(
                DirFSError::InodeNotDirectoryError,
            ),
            inode.disk_node@.ft == FType::TDir && dir_ok(self@, self.sb(), inode.disk_node@)
                ==> {
                let sb = self.sb();
                let dirv = inode.disk_node@;
                let end = scan_slots(sb, dirv);
                let m = find_match_from(self@, sb, dirv, name@, 0, end);
                &&& m == end ==> r == Err::<(Inode, u64), DirFSError>(
                    DirFSError::SearchedDirectoryDoesntExist,
                )
                &&& m < end && entry_at(self@, sb, dirv, m).inum < sb.ninodes ==> (r matches Ok(
                    p,
                ) && p.0.inum == entry_at(self@, sb, dirv, m).inum && p.0.disk_node@ == inode_v(
                    self@,
                    entry_at(self@, sb, dirv, m).inum as int,
                ) && p.0.disk_node.direct_blocks@.len() == NDIRECT && p.1 == slot_offset(sb, m))
                &&& m < end && entry_at(self@, sb, dirv, m).inum >= sb.ninodes ==> r == Err::<
                    (Inode, u64),
                    DirFSError,
                >(
                    DirFSError::DirectorySystemError(
                        InodeFSError::InodeSystemError(BlockFSError::OutsideOfTheBoundariesError),
                    ),
                )
            },
    {
        proof {
            crate::layout::lemma_valid_regions_disjoint(sb_of(self@));
            lemma_dir_geometry(sb_of(self@));
        }
        let sb = match self.sup_get() {
            Ok(s) => s,
            Err(e) => {
                proof {
                    assert(false);
                }
                return Err(e);
            },
        };
        if !matches!(inode.disk_node.ft, FType::TDir) {
            return Err(DirFSError::InodeNotDirectoryError);
        }
        let ghost dirv = inode.disk_node@;
        let ghost end = scan_slots(sb, dirv);
        let bs: u64 = sb.block_size;
        let spb: u64 = bs / DIRENTRY_SIZE;
        let useful: u64 = bs - bs % DIRENTRY_SIZE;
        let size: u64 = inode.disk_node.size;
        proof {
            assert(2 * (size as int / useful as int) <= size) by (nonlinear_arith)
                requires
                    useful >= 2,
                    size >= 0,
            ;
        }
        let by_size: u64 = size / useful + if size % useful == 0 {
            0
        } else {
            1
        };
        let bound: u64 = if by_size > NDIRECT as u64 {
            NDIRECT as u64
        } else {
            by_size
        };
        proof {
            lemma_fz_ge(dirv.direct, 0);
        }
        let mut t: u64 = 0;
        while t < bound
            invariant
                self.wf(),
                sb == self.sb(),
                sb.valid(),
                dirv == inode.disk_node@,
                dirv.ft == FType::TDir,
                dirv.direct.len() == NDIRECT,
                inode.disk_node.direct_blocks@.len() == NDIRECT,
                end == scan_slots(sb, dirv),
                bs == sb.block_size,
                spb == slots_per_block(sb),
                useful == useful_bytes(sb),
                useful >= 88,
                by_size == crate::layout::ceil_div(dirv.size as int, useful_bytes(sb)),
                bound <= NDIRECT,
                bound == if by_size > NDIRECT { NDIRECT as int } else { by_size as int },
                t <= bound,
                forall|u: int| 0 <= u < t ==> dirv.direct[u] != 0,
                forall|sx: int|
                    0 <= sx < t * spb ==> !de_matches(
                        #[trigger] entry_at(self@, sb, dirv, sx).name,
                        name@,
                    ),
            decreases bound - t,
        {
            let db: u64 = inode.disk_node.direct_blocks[t as usize];
            if db == 0 {
                proof {
                    lemma_fz_from(dirv.direct, 0, t as int);
                    assert(first_zero(dirv.direct, t as int) == t);
                    assert(scan_blocks(sb, dirv) == t);
                    assert(end == t * spb);
                    lemma_find_match_skip(self@, sb, dirv, name@, 0, end as int, end as int);
                }
                return Err(DirFSError::SearchedDirectoryDoesntExist);
            }
            proof {
                lemma_fz_from(dirv.direct, 0, t as int + 1);
                lemma_fz_ge(dirv.direct, t as int + 1);
                assert(scan_blocks(sb, dirv) >= t + 1);
                assert(scan_blocks(sb, dirv) <= NDIRECT);
                assert((t + 1) * spb <= scan_blocks(sb, dirv) * spb) by (nonlinear_arith)
                    requires
                        t + 1 <= scan_blocks(sb, dirv),
                        spb >= 4,
                ;
            }
            let block = match self.b_get(db) {
                Ok(b) => b,
                Err(e) => {
                    return Err(e);
                },
            };
            match scan_block_for_name(
                &block,
                name,
                Ghost(self@),
                Ghost(sb),
                Ghost(dirv),
                Ghost(t as int),
            ) {
                Some((u, e_inum)) => {
                    let ghost s = t * spb + u;
                    proof {
                        lemma_entry_at_parts(self@, sb, dirv, t as int, u as int);
                        assert(s < end) by (nonlinear_arith)
                            requires
                                s == t * spb + u,
                                0 <= u < spb,
                                (t + 1) * spb <= end,
                        ;
                        lemma_nomatch_upto(self@, sb, dirv, name@, t as int, u as int);
                        lemma_find_match_skip(self@, sb, dirv, name@, 0, s as int, end as int);
                        assert(find_match_from(self@, sb, dirv, name@, 0, end) == s);
                    }
                    let searched_inode = match self.i_get(e_inum) {
                        Ok(ino) => ino,
                        Err(e) => {
                            return Err(e);
                        },
                    };
                    proof {
                        assert(t * useful + DIRENTRY_SIZE * u <= 12 * 0xffff_ffffu64
                            + DIRENTRY_SIZE * spb) by (nonlinear_arith)
                            requires
                                t < 12,
                                0 <= u < spb,
                                useful <= 0xffff_ffffu64,
                                DIRENTRY_SIZE * spb <= 0xffff_ffffu64,
                        ;
                    }
                    let offset_total: u64 = t * useful + DIRENTRY_SIZE * u;
                    proof {
                        assert(offset_total == slot_offset(sb, s as int));
                    }
                    return Ok((searched_inode, offset_total));
                },
                None => {
                    proof {
                        lemma_nomatch_extend(self@, sb, dirv, name@, t as int);
                    }
                },
            }
            t = t + 1;
        }
        proof {
            if t < NDIRECT {
                lemma_fz_from(dirv.direct, 0, t as int);
                lemma_fz_ge(dirv.direct, t as int);
            } else {
                lemma_fz_ge(dirv.direct, 0);
            }
            assert(scan_blocks(sb, dirv) <= t);
            assert(scan_blocks(sb, dirv) * spb <= t * spb) by (nonlinear_arith)
                requires
                    scan_blocks(sb, dirv) <= t,
                    spb >= 4,
            ;
            lemma_find_match_skip(self@, sb, dirv, name@, 0, end as int, end as int);
            assert(find_match_from(self@, sb, dirv, name@, 0, end) == end);
        }
        Err(DirFSError::SearchedDirectoryDoesntExist)
    }
}


impl DirFS {
    /// Link `name` to inode `inum` inside the directory `inode`: refuse a
    /// non-directory, an existing name, or a free target; otherwise write
    /// an entry into the first empty slot, allocating a fresh data block
    /// when every scanned slot is taken, grow the directory's size when
    /// the slot lies beyond it, and bump the target's link count when the
    /// target is not the directory itself.  Returns the entry's byte
    /// offset in the directory stream.
    #[verifier::rlimit(100)]
    pub fn dirlink(&mut self, inode: &mut Inode, name: &str, inum: u64) -> (r: Result<
        u64,
        DirFSError,
    >)
        requires
            old(self).wf(),
            old(inode).disk_node.direct_blocks@.len() == NDIRECT,
        ensures
            final(self).wf(),
            final(self).fs.fs.device.block_size == old(self).fs.fs.device.block_size,
            final(self).fs.fs.device.nblocks == old(self).fs.fs.device.nblocks,
            final(self).sb() == old(self).sb(),
            final(inode).inum == old(inode).inum,
            old(inode).disk_node@.ft != FType::TDir <==> r == Err::<u64, DirFSError>(
                DirFSError::InodeNotDirectoryError,
            ),
            old(inode).disk_node@.ft != FType::TDir ==> final(self)@ == old(self)@
                && *final(inode) == *old(inode),
            ({
                let d0 = old(self)@;
                let sb = old(self).sb();
                let dirv = old(inode).disk_node@;
                let end = scan_slots(sb, dirv);
                let m = find_match_from(d0, sb, dirv, name@, 0, end);
                let f = find_free_from(d0, sb, dirv, 0, end);
                let tz = scan_blocks(sb, dirv);
                let tgt = inode_v(d0, inum as int);
                (dirv.ft == FType::TDir && dir_ok(d0, sb, dirv) && entries_wf(d0, sb, dirv)
                    && old(inode).inum < sb.ninodes) ==> {
                    &&& m < end ==> r == Err::<u64, DirFSError>(
                        DirFSError::DirEntryNameAlreadyExists,
                    ) && final(self)@ == d0 && *final(inode) == *old(inode)
                    &&& m == end && inum >= sb.ninodes ==> r == Err::<u64, DirFSError>(
                        DirFSError::DirectorySystemError(InodeFSError::InodeInitializationError),
                    ) && final(self)@ == d0 && *final(inode) == *old(inode)
                    &&& m == end && inum < sb.ninodes && tgt.ft == FType::TFree ==> r == Err::<
                        u64,
                        DirFSError,
                    >(DirFSError::InodeNotInUse) && final(self)@ == d0 && *final(inode) == *old(inode)
                    &&& m == end && inum < sb.ninodes && tgt.ft != FType::TFree && inum != old(
                        inode,
                    ).inum && tgt.nlink == u16::MAX ==> r == Err::<u64, DirFSError>(
                        DirFSError::DirectorySystemError(InodeFSError::InodeInitializationError),
                    ) && final(self)@ == d0 && *final(inode) == *old(inode)
                    &&& m == end && inum < sb.ninodes && tgt.ft != FType::TFree && (inum != old(
                        inode,
                    ).inum ==> tgt.nlink < u16::MAX) && !name_ok(name@) ==> r == Err::<
                        u64,
                        DirFSError,
                    >(
                        DirFSError::DirectorySystemError(InodeFSError::InodeInitializationError),
                    ) && final(self)@ == d0 && *final(inode) == *old(inode)
                    &&& m == end && inum < sb.ninodes && tgt.ft != FType::TFree && (inum != old(
                        inode,
                    ).inum ==> tgt.nlink < u16::MAX) && name_ok(name@) ==> {
                        let dF = final(self)@;
                        let dirvF = final(inode).disk_node@;
                        &&& f < end ==> {
                            &&& r == Ok::<u64, DirFSError>(slot_offset(sb, f) as u64)
                            &&& dirvF.direct == dirv.direct
                            &&& dirvF.ft == dirv.ft
                            &&& dirvF.nlink == dirv.nlink
                            &&& dirvF.size == if dirv.size < slot_offset(sb, f) + DIRENTRY_SIZE {
                                (dirv.size + DIRENTRY_SIZE) as u64
                            } else {
                                dirv.size
                            }
                            &&& final(inode).disk_node.direct_blocks@.len() == NDIRECT
                            &&& entry_at(dF, sb, dirvF, f) == (DirEntryV {
                                inum,
                                name: name_bytes(name@),
                            })
                            &&& forall|s: int|
                                0 <= s < end && s != f ==> #[trigger] entry_at(dF, sb, dirvF, s)
                                    == entry_at(d0, sb, dirv, s)
                            &&& dirv.size >= slot_offset(sb, f) ==> f < scan_slots(sb, dirvF)
                            &&& dir_ok(dF, sb, dirvF)
                            &&& inode_v(dF, old(inode).inum as int) == dirvF
                            &&& inum != old(inode).inum ==> inode_v(dF, inum as int)
                                == (DInodeV {
                                ft: tgt.ft,
                                nlink: (tgt.nlink + 1) as u16,
                                size: tgt.size,
                                direct: tgt.direct,
                            })
                            &&& forall|k: int|
                                0 <= k < sb.ninodes && k != old(inode).inum && k != inum
                                    ==> #[trigger] inode_v(dF, k) == inode_v(d0, k)
                            &&& same_bits(d0, dF)
                        }
                        &&& f == end && (tz == NDIRECT || (forall|b: int|
                            0 <= b < sb.ndatablocks ==> #[trigger] bit_of(d0, b))) ==> r
                            == Err::<u64, DirFSError>(
                            DirFSError::DirectorySystemError(
                                InodeFSError::InodeSystemError(
                                    BlockFSError::OutsideOfTheBoundariesError,
                                ),
                            ),
                        ) && final(self)@ == d0 && *final(inode) == *old(inode)
                        &&& f == end && tz < NDIRECT && !(forall|b: int|
                            0 <= b < sb.ndatablocks ==> #[trigger] bit_of(d0, b)) ==> {
                            let g = choose|g: int|
                                0 <= g < sb.ndatablocks && !bit_of(d0, g) && (forall|b2: int|
                                    0 <= b2 < g ==> bit_of(d0, b2));
                            &&& r == Ok::<u64, DirFSError>((tz * useful_bytes(sb)) as u64)
                            &&& dirvF.direct == dirv.direct.update(
                                tz,
                                (sb.datastart + g) as u64,
                            )
                            &&& dirvF.ft == dirv.ft
                            &&& dirvF.nlink == dirv.nlink
                            &&& dirvF.size == (dirv.size + DIRENTRY_SIZE) as u64
                            &&& final(inode).disk_node.direct_blocks@.len() == NDIRECT
                            &&& entry_at(dF, sb, dirvF, tz * slots_per_block(sb))
                                == (DirEntryV { inum, name: name_bytes(name@) })
                            &&& forall|s: int|
                                0 <= s < end ==> #[trigger] entry_at(dF, sb, dirvF, s)
                                    == entry_at(d0, sb, dirv, s)
                            &&& dirv.size >= tz * useful_bytes(sb) ==> tz * slots_per_block(sb)
                                < scan_slots(sb, dirvF)
                            &&& dirv.size <= tz * useful_bytes(sb) ==> dir_ok(dF, sb, dirvF)
                            &&& inode_v(dF, old(inode).inum as int) == dirvF
                            &&& inum != old(inode).inum ==> inode_v(dF, inum as int)
                                == (DInodeV {
                                ft: tgt.ft,
                                nlink: (tgt.nlink + 1) as u16,
                                size: tgt.size,
                                direct: tgt.direct,
                            })
                            &&& forall|k: int|
                                0 <= k < sb.ninodes && k != old(inode).inum && k != inum
                                    ==> #[trigger] inode_v(dF, k) == inode_v(d0, k)
                            &&& bit_of(dF, g) && same_bits_except(d0, dF, g)
                        }
                    }
                }
            }),
    {
        proof {
            crate::layout::lemma_valid_regions_disjoint(sb_of(old(self)@));
            lemma_dir_geometry(sb_of(old(self)@));
        }
        let ghost d0 = self@;
        let sb = match self.sup_get() {
            Ok(s) => s,
            Err(e) => {
                proof {
                    assert(false);
                }
                return Err(e);
            },
        };
        if !matches!(inode.disk_node.ft, FType::TDir) {
            return Err(DirFSError::InodeNotDirectoryError);
        }
        let ghost dirv = inode.disk_node@;
        let ghost end = scan_slots(sb, dirv);
        proof {
            lemma_scan_nonneg(sb, dirv);
        }
        let ghost cl = dirv.ft == FType::TDir && dir_ok(d0, sb, dirv) && entries_wf(d0, sb, dirv)
            && old(inode).inum < sb.ninodes;
        let lookup_result = self.dirlookup(inode, name);
        proof {
            if cl {
                lemma_find_match_bounds(d0, sb, dirv, name@, 0, end as int);
                let m = find_match_from(d0, sb, dirv, name@, 0, end as int);
                if m < end {
                    assert(entry_at(d0, sb, dirv, m).inum < sb.ninodes);
                    assert(lookup_result is Ok);
                } else {
                    assert(lookup_result == Err::<(Inode, u64), DirFSError>(
                        DirFSError::SearchedDirectoryDoesntExist,
                    ));
                }
            }
        }
        match lookup_result {
            Ok(_) => {
                return Err(DirFSError::DirEntryNameAlreadyExists);
            },
            Err(_) => {},
        }
        let inum_inode = match self.i_get(inum) {
            Ok(ino) => ino,
            Err(_) => {
                return Err(DirFSError::DirectorySystemError(
                    InodeFSError::InodeInitializationError,
                ));
            },
        };
        if matches!(inum_inode.disk_node.ft, FType::TFree) {
            return Err(DirFSError::InodeNotInUse);
        }
        if inum != inode.inum && inum_inode.disk_node.nlink == u16::MAX {
            return Err(DirFSError::DirectorySystemError(
                InodeFSError::InodeInitializationError,
            ));
        }
        let de = match Self::new_de(inum, name) {
            Some(de) => de,
            None => {
                return Err(DirFSError::DirectorySystemError(
                    InodeFSError::InodeInitializationError,
                ));
            },
        };
        let enc = encode_direntry(&de);
        let bs: u64 = sb.block_size;
        let spb: u64 = bs / DIRENTRY_SIZE;
        let useful: u64 = bs - bs % DIRENTRY_SIZE;
        let size: u64 = inode.disk_node.size;
        proof {
            assert(2 * (size as int / useful as int) <= size) by (nonlinear_arith)
                requires
                    useful >= 2,
                    size >= 0,
            ;
        }
        let by_size: u64 = size / useful + if size % useful == 0 {
            0
        } else {
            1
        };
        let bound: u64 = if by_size > NDIRECT as u64 {
            NDIRECT as u64
        } else {
            by_size
        };
        let mut t: u64 = 0;
        let mut stopped: bool = false;
        while t < bound && !stopped
            invariant
                self.wf(),
                self@ == d0,
                d0 == old(self)@,
                sb == self.sb(),
                sb.valid(),
                *inode == *old(inode),
                dirv == inode.disk_node@,
                dirv.ft == FType::TDir,
                dirv.direct.len() == NDIRECT,
                end == scan_slots(sb, dirv),
                cl == (dirv.ft == FType::TDir && dir_ok(d0, sb, dirv) && entries_wf(d0, sb, dirv)
                    && old(inode).inum < sb.ninodes),
                cl ==> find_match_from(d0, sb, dirv, name@, 0, end) == end,
                cl ==> inum < sb.ninodes && inode_v(d0, inum as int).ft != FType::TFree,
                inum_inode.inum == inum,
                inum < sb.ninodes ==> inum_inode.disk_node@ == inode_v(d0, inum as int),
                inum != old(inode).inum ==> inum_inode.disk_node.nlink < u16::MAX,
                name_ok(name@),
                de@.inum == inum,
                de@.name == name_bytes(name@),
                enc@.len() == DIRENTRY_SIZE,
                de_of(enc@) == de@,
                bs == sb.block_size,
                spb == slots_per_block(sb),
                useful == useful_bytes(sb),
                useful >= 88,
                size == dirv.size,
                by_size == crate::layout::ceil_div(dirv.size as int, useful_bytes(sb)),
                bound == if by_size > NDIRECT { NDIRECT as int } else { by_size as int },
                t <= bound,
                forall|u: int| 0 <= u < t ==> dirv.direct[u] != 0,
                stopped ==> t < bound && dirv.direct[t as int] == 0,
                forall|sx: int|
                    0 <= sx < t * spb ==> (#[trigger] entry_at(d0, sb, dirv, sx)).inum != 0,
                self.fs.fs.device.block_size == old(self).fs.fs.device.block_size,
                self.fs.fs.device.nblocks == old(self).fs.fs.device.nblocks,
            decreases bound - t, if stopped { 0int } else { 1int },
        {
            let db: u64 = inode.disk_node.direct_blocks[t as usize];
            if db == 0 {
                stopped = true;
            } else {
                proof {
                    lemma_fz_from(dirv.direct, 0, t as int + 1);
                    lemma_fz_ge(dirv.direct, t as int + 1);
                    assert(scan_blocks(sb, dirv) >= t + 1);
                    assert((t + 1) * spb <= scan_blocks(sb, dirv) * spb) by (nonlinear_arith)
                        requires
                            t + 1 <= scan_blocks(sb, dirv),
                            spb >= 4,
                    ;
                }
                if db < sb.datastart || db - sb.datastart >= sb.ndatablocks {
                    proof {
                        if cl {
                            assert(sb.datastart <= dirv.direct[t as int]);
                            assert(false);
                        }
                    }
                    return Err(DirFSError::DirectorySystemError(
                        InodeFSError::InodeSystemError(BlockFSError::OutsideOfTheBoundariesError),
                    ));
                }
                let mut block = match self.b_get(db) {
                    Ok(b) => b,
                    Err(e) => {
                        proof {
                            assert(false);
                        }
                        return Err(e);
                    },
                };
                match scan_block_for_free(
                    &block,
                    Ghost(self@),
                    Ghost(sb),
                    Ghost(dirv),
                    Ghost(t as int),
                ) {
                    Some(u) => {
                        let ghost s = t * spb + u;
                        proof {
                            lemma_entry_at_parts(self@, sb, dirv, t as int, u as int);
                            assert(s < end) by (nonlinear_arith)
                                requires
                                    s == t * spb + u,
                                    0 <= u < spb,
                                    (t + 1) * spb <= end,
                            ;
                            assert forall|sx: int| 0 <= sx < s implies (#[trigger] entry_at(
                                d0,
                                sb,
                                dirv,
                                sx,
                            )).inum != 0 by {
                                if sx >= t * spb {
                                    let u2 = sx - t * spb;
                                    assert(entry_at(d0, sb, dirv, t * spb + u2) == entry_at(
                                        d0,
                                        sb,
                                        dirv,
                                        sx,
                                    ));
                                }
                            }
                            lemma_find_free_skip(d0, sb, dirv, 0, s as int, end as int);
                            assert(find_free_from(d0, sb, dirv, 0, end) == s);
                        }
                        let off: u64 = DIRENTRY_SIZE * u;
                        crate::bytes::write_bytes(&mut block.data, off as usize, &enc);
                        let ghost dpre = self@;
                        match self.b_put(&block) {
                            Ok(_) => {},
                            Err(e) => {
                                proof {
                                    assert(false);
                                }
                                return Err(e);
                            },
                        }
                        proof {
                            if cl {
                                lemma_entry_write_frame(
                                    dpre,
                                    self@,
                                    sb,
                                    dirv,
                                    t as int,
                                    u as int,
                                    enc@,
                                );
                            }
                        }
                        proof {
                            assert(t * useful + DIRENTRY_SIZE * u + DIRENTRY_SIZE <= 13
                                * 0xffff_ffffu64) by (nonlinear_arith)
                                requires
                                    t < 12,
                                    0 <= u < spb,
                                    useful <= 0xffff_ffffu64,
                                    DIRENTRY_SIZE * spb <= 0xffff_ffffu64,
                            ;
                        }
                        let off_total: u64 = t * useful + DIRENTRY_SIZE * u;
                        proof {
                            assert(off_total == slot_offset(sb, s as int));
                        }
                        if inode.disk_node.size < off_total + DIRENTRY_SIZE {
                            inode.disk_node.size = inode.disk_node.size + DIRENTRY_SIZE;
                        }
                        let ghost dirv_f = inode.disk_node@;
                        let ghost dmid = self@;
                        match self.i_put(inode) {
                            Ok(_) => {},
                            Err(e) => {
                                proof {
                                    if cl {
                                        assert(false);
                                    }
                                }
                                return Err(e);
                            },
                        }
                        let ghost dip1 = self@;
                        if inum != inode.inum {
                            let mut ref_inode = match self.i_get(inum) {
                                Ok(ino) => ino,
                                Err(e) => {
                                    proof {
                                        if cl {
                                            assert(false);
                                        }
                                    }
                                    return Err(e);
                                },
                            };
                            proof {
                                if cl {
                                    assert(ref_inode.disk_node@ == inode_v(d0, inum as int));
                                }
                                assert(ref_inode.disk_node.nlink < u16::MAX || !cl);
                            }
                            if ref_inode.disk_node.nlink == u16::MAX {
                                proof {
                                    if cl {
                                        assert(false);
                                    }
                                }
                                return Err(DirFSError::DirectorySystemError(
                                    InodeFSError::InodeInitializationError,
                                ));
                            }
                            ref_inode.disk_node.nlink = ref_inode.disk_node.nlink + 1;
                            match self.i_put(&ref_inode) {
                                Ok(_) => {},
                                Err(e) => {
                                    proof {
                                        if cl {
                                            assert(false);
                                        }
                                    }
                                    return Err(e);
                                },
                            }
                        }
                        proof {
                            if cl {
                                lemma_entries_data_only(dmid, self@, sb, dirv);
                                assert forall|sx: int| 0 <= sx < end implies #[trigger] entry_at(
                                    self@,
                                    sb,
                                    dirv_f,
                                    sx,
                                ) == entry_at(self@, sb, dirv, sx) by {
                                    assert(dirv_f.direct == dirv.direct);
                                }
                                assert(entry_at(self@, sb, dirv_f, s as int) == de_of(enc@));
                                lemma_slot_offset(sb, s as int);
                                lemma_scan_nonneg(sb, dirv);
                                assert forall|m: int| 0 <= m < sb.ndatablocks implies #[trigger]
                                bit_of(self@, m) == bit_of(d0, m) by {
                                    assert(bit_of(dmid, m) == bit_of(dpre, m));
                                    assert(bit_of(dip1, m) == bit_of(dmid, m));
                                    assert(bit_of(self@, m) == bit_of(dip1, m));
                                }
                                lemma_found_dir_ok(d0, self@, sb, dirv, dirv_f, s as int);
                                if dirv.size >= slot_offset(sb, s as int) {
                                    lemma_slot_coords(sb, t as int, u as int);
                                    lemma_link_scan_grow(sb, dirv, dirv_f, s as int);
                                    assert(((s as int) / (spb as int) + 1) * (spb as int)
                                        <= scan_slots(sb, dirv_f));
                                    assert(s < scan_slots(sb, dirv_f)) by (nonlinear_arith)
                                        requires
                                            s as int == t as int * (spb as int) + u as int,
                                            0 <= (u as int) && (u as int) < (spb as int),
                                            s as int / (spb as int) == t as int,
                                            ((s as int) / (spb as int) + 1) * (spb as int)
                                                <= scan_slots(sb, dirv_f),
                                    ;
                                }
                            }
                        }
                        return Ok(off_total);
                    },
                    None => {
                        proof {
                            assert forall|sx: int| 0 <= sx < (t + 1) * spb implies (
                            #[trigger] entry_at(d0, sb, dirv, sx)).inum != 0 by {
                                assert((t + 1) * spb == t * spb + spb) by (nonlinear_arith);
                                if sx >= t * spb {
                                    let u2 = sx - t * spb;
                                    assert(entry_at(d0, sb, dirv, t * spb + u2) == entry_at(
                                        d0,
                                        sb,
                                        dirv,
                                        sx,
                                    ));
                                }
                            }
                        }
                        t = t + 1;
                    },
                }
            }
        }
        proof {
            lemma_fz_from(dirv.direct, 0, t as int);
            lemma_fz_ge(dirv.direct, t as int);
            if stopped {
                assert(first_zero(dirv.direct, t as int) == t);
                assert(scan_blocks(sb, dirv) == t);
            } else {
                assert(t == bound);
                assert(first_zero(dirv.direct, 0) >= t);
                assert(scan_blocks(sb, dirv) == t);
            }
            assert(end == t * spb);
            lemma_find_free_skip(d0, sb, dirv, 0, end as int, end as int);
            assert(find_free_from(d0, sb, dirv, 0, end) == end);
        }
        let tz: u64 = t;
        if tz >= NDIRECT as u64 {
            return Err(DirFSError::DirectorySystemError(
                InodeFSError::InodeSystemError(BlockFSError::OutsideOfTheBoundariesError),
            ));
        }
        if inode.disk_node.size > u64::MAX - DIRENTRY_SIZE {
            proof {
                if cl {
                    assert(dirv.size <= NDIRECT * useful_bytes(sb));
                    assert(false);
                }
            }
            return Err(DirFSError::DirectorySystemError(
                InodeFSError::InodeSystemError(BlockFSError::OutsideOfTheBoundariesError),
            ));
        }
        let g: u64 = match self.b_alloc() {
            Ok(g) => g,
            Err(e) => {
                return Err(e);
            },
        };
        let mut allocated_block = match self.b_get(g + sb.datastart) {
            Ok(b) => b,
            Err(e) => {
                proof {
                    assert(false);
                }
                return Err(e);
            },
        };
        let ghost dalloc = self@;
        crate::bytes::write_bytes(&mut allocated_block.data, 0, &enc);
        match self.b_put(&allocated_block) {
            Ok(_) => {},
            Err(e) => {
                proof {
                    assert(false);
                }
                return Err(e);
            },
        }
        let ghost dwrote = self@;
        inode.disk_node.direct_blocks.set(tz as usize, g + sb.datastart);
        inode.disk_node.size = inode.disk_node.size + DIRENTRY_SIZE;
        let ghost dirv_f = inode.disk_node@;
        match self.i_put(inode) {
            Ok(_) => {},
            Err(e) => {
                proof {
                    if cl {
                        assert(false);
                    }
                }
                return Err(e);
            },
        }
        let ghost dap1 = self@;
        if inum != inode.inum {
            let mut ref_inode = match self.i_get(inum) {
                Ok(ino) => ino,
                Err(e) => {
                    proof {
                        if cl {
                            assert(false);
                        }
                    }
                    return Err(e);
                },
            };
            proof {
                if cl {
                    assert(ref_inode.disk_node@ == inode_v(d0, inum as int));
                }
            }
            if ref_inode.disk_node.nlink == u16::MAX {
                proof {
                    if cl {
                        assert(false);
                    }
                }
                return Err(DirFSError::DirectorySystemError(
                    InodeFSError::InodeInitializationError,
                ));
            }
            ref_inode.disk_node.nlink = ref_inode.disk_node.nlink + 1;
            match self.i_put(&ref_inode) {
                Ok(_) => {},
                Err(e) => {
                    proof {
                        if cl {
                            assert(false);
                        }
                    }
                    return Err(e);
                },
            }
        }
        proof {
            if cl {
                assert(!bit_of(d0, g as int) && forall|b2: int| 0 <= b2 < g ==> bit_of(d0, b2));
                let gw = choose|gw: int|
                    0 <= gw < sb.ndatablocks && !bit_of(d0, gw) && (forall|b2: int|
                        0 <= b2 < gw ==> bit_of(d0, b2));
                assert(!bit_of(d0, gw) && !bit_of(d0, g as int));
                if gw < g {
                    assert(bit_of(d0, gw));
                    assert(false);
                }
                if g < gw {
                    assert(bit_of(d0, g as int));
                    assert(false);
                }
                assert(gw == g);
                // the written entry in the fresh block
                assert(data_block(dwrote, g as int) == splice(
                    zeros(sb.block_size as int),
                    0,
                    enc@,
                ));
                lemma_entry_append_frame(d0, self@, sb, dirv, g as int);
                lemma_dir_geometry(sb);
                lemma_slot_coords(sb, tz as int, 0);
                assert(dirv_f.direct[tz as int] == sb.datastart + g);
                assert(entry_at(self@, sb, dirv_f, tz as int * spb) == de_of(
                    self@[(sb.datastart + g) as int].subrange(0, DIRENTRY_SIZE as int),
                ));
                assert(self@[(sb.datastart + g) as int] == data_block(self@, g as int));
                assert(data_block(self@, g as int) == data_block(dwrote, g as int));
                assert(data_block(dwrote, g as int).subrange(0, DIRENTRY_SIZE as int) =~= enc@);
                assert(entry_at(self@, sb, dirv_f, tz as int * spb) == de_of(enc@));
                assert forall|sx: int| 0 <= sx < end implies #[trigger] entry_at(
                    self@,
                    sb,
                    dirv_f,
                    sx,
                ) == entry_at(d0, sb, dirv, sx) by {
                    lemma_slot_in_block(sb, sx);
                    lemma_fundamental_div_mod(sx, spb as int);
                    assert(sx / (spb as int) < tz as int) by (nonlinear_arith)
                        requires
                            0 <= sx < tz as int * (spb as int),
                            spb as int >= 4,
                            sx == (spb as int) * (sx / (spb as int)) + sx % (spb as int),
                            0 <= (sx % (spb as int)) && (sx % (spb as int)) < (spb as int),
                    ;
                    assert(dirv_f.direct[sx / (spb as int)] == dirv.direct[sx / (spb as int)]);
                    assert(entry_at(self@, sb, dirv, sx) == entry_at(d0, sb, dirv, sx));
                    assert(entry_at(self@, sb, dirv_f, sx) == entry_at(self@, sb, dirv, sx));
                }
                lemma_append_scan(sb, dirv, dirv_f, tz as int, g as int);
                assert forall|m: int| 0 <= m < sb.ndatablocks && m != g implies #[trigger] bit_of(
                    self@,
                    m,
                ) == bit_of(d0, m) by {
                    assert(bit_of(dalloc, m) == bit_of(d0, m));
                    assert(bit_of(dwrote, m) == bit_of(dalloc, m));
                    assert(bit_of(dap1, m) == bit_of(dwrote, m));
                    assert(bit_of(self@, m) == bit_of(dap1, m));
                }
                assert(bit_of(self@, g as int)) by {
                    assert(bit_of(dalloc, g as int));
                    assert(bit_of(dwrote, g as int) == bit_of(dalloc, g as int));
                    assert(bit_of(dap1, g as int) == bit_of(dwrote, g as int));
                    assert(bit_of(self@, g as int) == bit_of(dap1, g as int));
                }
                if dirv.size <= tz as int * useful_bytes(sb) {
                    lemma_append_dir_ok(
                        d0,
                        self@,
                        sb,
                        dirv,
                        dirv_f,
                        tz as int,
                        g as int,
                    );
                }
            }
        }
        proof {
            assert(tz * useful < 0x10_0000_0000u64) by (nonlinear_arith)
                requires
                    tz < 12,
                    useful <= 0xffff_ffffu64,
            ;
        }
        let off_total: u64 = tz * useful;
        Ok(off_total)
    }
}


/// Writing an entry into a free slot of a well-shaped directory and
/// growing its size by at most one entry keeps it well shaped, and the
/// scan window does not shrink past the written slot's block.
proof fn lemma_found_dir_ok(
    d0: Seq<Seq<u8>>,
    dF: Seq<Seq<u8>>,
    sb: SuperBlock,
    dirv: DInodeV,
    dirv_f: DInodeV,
    s: int,
)
    requires
        sb.valid(),
        dir_ok(d0, sb, dirv),
        0 <= s < scan_slots(sb, dirv),
        dirv_f.direct == dirv.direct,
        dirv_f.ft == dirv.ft,
        dirv_f.size == if dirv.size < slot_offset(sb, s) + DIRENTRY_SIZE {
            (dirv.size + DIRENTRY_SIZE) as u64
        } else {
            dirv.size
        },
        forall|m: int|
            0 <= m < sb.ndatablocks ==> #[trigger] bit_of(dF, m) == bit_of(d0, m),
    ensures
        dir_ok(dF, sb, dirv_f),
        scan_blocks(sb, dirv_f) <= scan_blocks(sb, dirv),
{
    lemma_dir_geometry(sb);
    lemma_scan_nonneg(sb, dirv);
    lemma_slot_offset(sb, s);
    let spb = slots_per_block(sb);
    let useful = useful_bytes(sb);
    let sc = scan_blocks(sb, dirv);
    // the new size stays within the scanned window
    assert(DIRENTRY_SIZE * (s + 1) <= sc * useful) by (nonlinear_arith)
        requires
            0 <= s < sc * spb,
            useful == DIRENTRY_SIZE * spb,
            spb >= 4,
            sc >= 0,
    ;
    assert(sc * useful <= NDIRECT * useful && NDIRECT * useful <= 12 * 0xffff_ffffu64)
        by (nonlinear_arith)
        requires
            sc <= NDIRECT,
            88 <= useful <= 0xffff_ffffu64,
    ;
    if dirv.size < slot_offset(sb, s) + DIRENTRY_SIZE {
        assert(dirv.size <= DIRENTRY_SIZE * s) by (nonlinear_arith)
            requires
                dirv.size < DIRENTRY_SIZE * s + DIRENTRY_SIZE,
                dirv.size % DIRENTRY_SIZE == 0,
                dirv.size >= 0,
                s >= 0,
        ;
        assert(dirv.size + DIRENTRY_SIZE <= sc * useful);
        assert(dirv_f.size == dirv.size + DIRENTRY_SIZE);
        lemma_mod_multiples_vanish(1, dirv.size as int, DIRENTRY_SIZE as int);
        assert(dirv_f.size % DIRENTRY_SIZE == 0);
    } else {
        assert(dirv_f.size == dirv.size);
        assert(dirv_f.size % DIRENTRY_SIZE == 0);
    }
    if dirv.size < slot_offset(sb, s) + DIRENTRY_SIZE {
        assert(dirv_f.size <= sc * useful);
        let by_size_f = crate::layout::ceil_div(dirv_f.size as int, useful);
        assert(by_size_f <= sc && by_size_f >= 0) by (nonlinear_arith)
            requires
                0 <= dirv_f.size <= sc * useful,
                useful >= 88,
                sc >= 0,
                by_size_f == dirv_f.size as int / useful + if dirv_f.size as int % useful == 0 {
                    0int
                } else {
                    1int
                },
        ;
        assert(scan_blocks(sb, dirv_f) <= sc);
    } else {
        assert(dirv_f.size == dirv.size);
        assert(scan_blocks(sb, dirv_f) == sc);
    }
    assert(dirv_f.size <= NDIRECT * useful);
    assert(scan_blocks(sb, dirv_f) <= sc);
    assert forall|t2: int|
        0 <= t2 < scan_blocks(sb, dirv_f) implies sb.datastart <= #[trigger] dirv_f.direct[t2]
        < sb.datastart + sb.ndatablocks && bit_of(dF, dirv_f.direct[t2] - sb.datastart) by {
        assert(dirv_f.direct[t2] == dirv.direct[t2]);
        assert(sb.datastart <= dirv.direct[t2] < sb.datastart + sb.ndatablocks);
        assert(bit_of(dF, dirv.direct[t2] - sb.datastart) == bit_of(
            d0,
            dirv.direct[t2] - sb.datastart,
        ));
    }
    assert forall|t1: int, t2: int|
        0 <= t1 < t2 < scan_blocks(sb, dirv_f) implies #[trigger] dirv_f.direct[t1]
        != #[trigger] dirv_f.direct[t2] by {
        assert(dirv.direct[t1] != dirv.direct[t2]);
    }
}

/// Appending one fresh, just-allocated block to a full, densely sized
/// directory keeps it well shaped.
proof fn lemma_append_dir_ok(
    d0: Seq<Seq<u8>>,
    dF: Seq<Seq<u8>>,
    sb: SuperBlock,
    dirv: DInodeV,
    dirv_f: DInodeV,
    tz: int,
    g: int,
)
    requires
        sb.valid(),
        dir_ok(d0, sb, dirv),
        scan_blocks(sb, dirv) == tz,
        0 <= tz < NDIRECT,
        dirv_f.direct == dirv.direct.update(tz, (sb.datastart + g) as u64),
        dirv_f.size == dirv.size + DIRENTRY_SIZE,
        dirv.size <= tz * useful_bytes(sb),
        0 <= g < sb.ndatablocks,
        !bit_of(d0, g),
        bit_of(dF, g),
        forall|m: int|
            0 <= m < sb.ndatablocks && m != g ==> #[trigger] bit_of(dF, m) == bit_of(d0, m),
    ensures
        dir_ok(dF, sb, dirv_f),
{
    lemma_dir_geometry(sb);
    let spb = slots_per_block(sb);
    let useful = useful_bytes(sb);
    assert(dirv_f.size <= NDIRECT * useful) by (nonlinear_arith)
        requires
            dirv_f.size == dirv.size + DIRENTRY_SIZE,
            dirv.size <= tz * useful,
            tz + 1 <= NDIRECT,
            useful >= 88,
    ;
    lemma_mod_multiples_vanish(1, dirv.size as int, DIRENTRY_SIZE as int);
    assert(dirv_f.size % DIRENTRY_SIZE == 0);
    let by_size_f = crate::layout::ceil_div(dirv_f.size as int, useful);
    assert(by_size_f <= tz + 1 && by_size_f >= 0) by (nonlinear_arith)
        requires
            0 <= dirv_f.size <= tz * useful + DIRENTRY_SIZE,
            useful >= 88,
            tz >= 0,
            by_size_f == dirv_f.size as int / useful + if dirv_f.size as int % useful == 0 {
                0int
            } else {
                1int
            },
    ;
    assert(scan_blocks(sb, dirv_f) <= tz + 1);
    assert forall|t2: int|
        0 <= t2 < scan_blocks(sb, dirv_f) implies sb.datastart <= #[trigger] dirv_f.direct[t2]
        < sb.datastart + sb.ndatablocks && bit_of(dF, dirv_f.direct[t2] - sb.datastart) by {
        if t2 < tz {
            assert(dirv_f.direct[t2] == dirv.direct[t2]);
            assert(sb.datastart <= dirv.direct[t2] < sb.datastart + sb.ndatablocks);
            assert(bit_of(d0, dirv.direct[t2] - sb.datastart));
            assert(dirv.direct[t2] - sb.datastart != g);
            assert(bit_of(dF, dirv.direct[t2] - sb.datastart));
        } else {
            assert(t2 == tz);
            assert(dirv_f.direct[t2] == sb.datastart + g);
        }
    }
    assert forall|t1: int, t2: int|
        0 <= t1 < t2 < scan_blocks(sb, dirv_f) implies #[trigger] dirv_f.direct[t1]
        != #[trigger] dirv_f.direct[t2] by {
        if t2 < tz {
            assert(dirv_f.direct[t1] == dirv.direct[t1] && dirv_f.direct[t2] == dirv.direct[t2]);
        } else {
            assert(t2 == tz);
            assert(dirv_f.direct[t1] == dirv.direct[t1]);
            assert(bit_of(d0, dirv.direct[t1] - sb.datastart));
            assert(dirv.direct[t1] - sb.datastart != g);
        }
    }
}

/// The scan of a directory whose size grew to cover slot `s` still covers
/// slot `s` and everything before it.
proof fn lemma_link_scan_grow(sb: SuperBlock, dirv: DInodeV, dirv_f: DInodeV, s: int)
    requires
        sb.valid(),
        dirv_f.direct == dirv.direct,
        0 <= s < scan_slots(sb, dirv),
        dirv_f.size >= slot_offset(sb, s) + DIRENTRY_SIZE,
        dirv_f.size <= NDIRECT * useful_bytes(sb),
    ensures
        (s / slots_per_block(sb) + 1) * slots_per_block(sb) <= scan_slots(sb, dirv_f),
        scan_blocks(sb, dirv_f) <= NDIRECT,
{
    lemma_dir_geometry(sb);
    let spb = slots_per_block(sb);
    let useful = useful_bytes(sb);
    let t = s / spb;
    lemma_slot_in_block(sb, s);
    assert(t < scan_blocks(sb, dirv)) by (nonlinear_arith)
        requires
            0 <= s < scan_blocks(sb, dirv) * spb,
            spb >= 4,
            t == s / spb,
    ;
    // the size covers t + 1 blocks
    assert(slot_offset(sb, s) >= t * useful) by (nonlinear_arith)
        requires
            slot_offset(sb, s) == (s / spb) * useful + DIRENTRY_SIZE * (s % spb),
            t == s / spb,
            0 <= s % spb,
            useful >= 88,
    ;
    let by_size_f = crate::layout::ceil_div(dirv_f.size as int, useful);
    assert(by_size_f >= t + 1) by (nonlinear_arith)
        requires
            dirv_f.size >= t * useful + DIRENTRY_SIZE,
            useful >= 88,
            by_size_f == dirv_f.size as int / useful + if dirv_f.size as int % useful == 0 {
                0int
            } else {
                1int
            },
            t >= 0,
    ;
    assert(by_size_f <= NDIRECT) by (nonlinear_arith)
        requires
            dirv_f.size <= NDIRECT * useful,
            useful >= 88,
            by_size_f == dirv_f.size as int / useful + if dirv_f.size as int % useful == 0 {
                0int
            } else {
                1int
            },
    ;
    // every block up to t is assigned
    assert(first_zero(dirv.direct, 0) >= scan_blocks(sb, dirv)) by {
        lemma_fz_ge(dirv.direct, 0);
    }
    assert(scan_blocks(sb, dirv_f) >= t + 1);
    assert((t + 1) * spb <= scan_blocks(sb, dirv_f) * spb) by (nonlinear_arith)
        requires
            t + 1 <= scan_blocks(sb, dirv_f),
            spb >= 4,
    ;
}

/// After appending a fresh assigned block at position `tz` and growing the
/// size by one entry, the scan covers at least `tz + 1` blocks when the
/// old size already filled the first `tz`.
proof fn lemma_append_scan(sb: SuperBlock, dirv: DInodeV, dirv_f: DInodeV, tz: int, g: int)
    requires
        sb.valid(),
        dirv.direct.len() == NDIRECT,
        0 <= tz < NDIRECT,
        scan_blocks(sb, dirv) == tz,
        forall|u: int| 0 <= u < tz ==> dirv.direct[u] != 0,
        dirv_f.direct == dirv.direct.update(tz, (sb.datastart + g) as u64),
        0 <= g < sb.ndatablocks,
        dirv_f.size == dirv.size + DIRENTRY_SIZE,
        dirv.size <= NDIRECT * useful_bytes(sb),
    ensures
        scan_blocks(sb, dirv_f) <= NDIRECT,
        dirv.size >= tz * useful_bytes(sb) ==> tz * slots_per_block(sb) < scan_slots(
            sb,
            dirv_f,
        ),
{
    lemma_dir_geometry(sb);
    let spb = slots_per_block(sb);
    let useful = useful_bytes(sb);
    assert(sb.datastart + g > 0);
    assert forall|u: int| 0 <= u < tz + 1 implies dirv_f.direct[u] != 0 by {
        if u < tz {
            assert(dirv_f.direct[u] == dirv.direct[u]);
        }
    }
    lemma_fz_from(dirv_f.direct, 0, tz + 1);
    lemma_fz_ge(dirv_f.direct, tz + 1);
    assert(first_zero(dirv_f.direct, 0) >= tz + 1);
    lemma_fz_ge(dirv_f.direct, 0);
    let by_size_f = crate::layout::ceil_div(dirv_f.size as int, useful);
    assert(by_size_f >= 0) by (nonlinear_arith)
        requires
            dirv_f.size >= 0,
            useful >= 88,
            by_size_f == dirv_f.size as int / useful + if dirv_f.size as int % useful == 0 {
                0int
            } else {
                1int
            },
    ;
    assert(scan_blocks(sb, dirv_f) <= NDIRECT);
    if dirv.size >= tz * useful {
        assert(by_size_f >= tz + 1) by (nonlinear_arith)
            requires
                dirv_f.size >= tz * useful + DIRENTRY_SIZE,
                useful >= 88,
                by_size_f == dirv_f.size as int / useful + if dirv_f.size as int % useful == 0 {
                    0int
                } else {
                    1int
                },
                tz >= 0,
        ;
        assert(scan_blocks(sb, dirv_f) >= tz + 1);
        assert(tz * spb < (tz + 1) * spb && (tz + 1) * spb <= scan_blocks(sb, dirv_f) * spb)
            by (nonlinear_arith)
            requires
                tz + 1 <= scan_blocks(sb, dirv_f),
                spb >= 4,
                tz >= 0,
        ;
    }
}


/// A freshly linked name is found by lookup: after a link wrote an entry
/// for `name` into slot `f` of the directory, left every earlier slot
/// unchanged, and no entry stored the name before, the first matching
/// slot of the directory is exactly `f` — so a lookup returns the linked
/// inode and the offset the link returned.
pub proof fn lemma_link_then_lookup(
    d0: Seq<Seq<u8>>,
    dF: Seq<Seq<u8>>,
    sb: SuperBlock,
    dirv: DInodeV,
    dirv_f: DInodeV,
    q: Seq<char>,
    k: u64,
    f: int,
)
    requires
        sb.valid(),
        name_ok(q),
        forall|s: int|
            0 <= s < scan_slots(sb, dirv) ==> !de_matches(
                #[trigger] entry_at(d0, sb, dirv, s).name,
                q,
            ),
        0 <= f < scan_slots(sb, dirv_f),
        f <= scan_slots(sb, dirv),
        entry_at(dF, sb, dirv_f, f) == (DirEntryV { inum: k, name: name_bytes(q) }),
        forall|s: int|
            0 <= s < f ==> #[trigger] entry_at(dF, sb, dirv_f, s) == entry_at(d0, sb, dirv, s),
    ensures
        find_match_from(dF, sb, dirv_f, q, 0, scan_slots(sb, dirv_f)) == f,
        entry_at(dF, sb, dirv_f, f).inum == k,
{
    lemma_name_bytes_roundtrip(q);
    let end = scan_slots(sb, dirv_f);
    assert forall|s: int| 0 <= s < f implies !de_matches(
        #[trigger] entry_at(dF, sb, dirv_f, s).name,
        q,
    ) by {
        assert(entry_at(dF, sb, dirv_f, s) == entry_at(d0, sb, dirv, s));
        assert(!de_matches(entry_at(d0, sb, dirv, s).name, q));
    }
    lemma_find_match_skip(dF, sb, dirv_f, q, 0, f, end);
    assert(de_matches(entry_at(dF, sb, dirv_f, f).name, q));
    assert(find_match_from(dF, sb, dirv_f, q, f, end) == f);
}

} // verus!
