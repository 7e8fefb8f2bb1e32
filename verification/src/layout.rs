//! On-disk layout: geometry constants, the superblock and its validity
//! rules, inodes, and the packed byte encodings of both record kinds.

use vstd::prelude::*;
use crate::bytes::{le16, le64, u16_from_le, u16_to_le, u64_from_le, u64_to_le, zeros};

verus! {

/// Bytes occupied by one packed on-disk inode: a 2-byte file type tag,
/// a 2-byte link count, an 8-byte size, and `NDIRECT` 8-byte block numbers.
pub const DINODE_SIZE: u64 = 108;

/// Bytes occupied by one packed directory entry: an 8-byte inode number
/// followed by `DIRNAME_SIZE` one-byte characters.
pub const DIRENTRY_SIZE: u64 = 22;

/// Width of the fixed, zero-padded name field of a directory entry,
/// including the terminator.
pub const DIRNAME_SIZE: usize = 14;

/// Number of direct block pointers per inode.
pub const NDIRECT: usize = 12;

/// Bytes occupied by the packed superblock: seven 8-byte integers.
pub const SUPERBLOCK_SIZE: u64 = 56;

/// Upper bound on `block_size` and on `nblocks` accepted by a valid
/// superblock, so that block indices fit in a `usize` on every platform
/// and every byte- and bit-offset computation fits comfortably in a `u64`.
pub const GEOMETRY_MAX: u64 = 0xffff_ffff;

/// The type of a file recorded in an inode.
#[derive(Clone, Copy, Debug, PartialEq, Eq, Structural)]
pub enum FType {
    /// The inode is unused.
    TFree,
    /// The inode describes a regular file.
    TFile,
    /// The inode describes a directory.
    TDir,
}

/// The superblock: seven integers describing the disk geometry and the
/// start of each region, stored in block 0.
#[derive(Clone, Copy, Debug, PartialEq, Eq, Structural)]
pub struct SuperBlock {
    /// Bytes per block.
    pub block_size: u64,
    /// Total blocks on the device.
    pub nblocks: u64,
    /// Number of inodes in the inode table.
    pub ninodes: u64,
    /// First block of the inode table.
    pub inodestart: u64,
    /// Number of blocks in the data region.
    pub ndatablocks: u64,
    /// First block of the allocation bitmap.
    pub bmapstart: u64,
    /// First block of the data region.
    pub datastart: u64,
}

/// `a / b` rounded up.
pub open spec fn ceil_div(a: int, b: int) -> int {
    a / b + if a % b == 0 {
        0int
    } else {
        1int
    }
}

impl SuperBlock {
    /// Inodes stored per block.
    pub open spec fn ipb(self) -> int {
        self.block_size as int / DINODE_SIZE as int
    }

    /// Blocks occupied by the inode table.
    pub open spec fn n_inode_blocks(self) -> int {
        ceil_div(self.ninodes as int, self.ipb())
    }

    /// Bitmap bits stored per block.
    pub open spec fn bits_per_block(self) -> int {
        8 * self.block_size as int
    }

    /// Blocks occupied by the allocation bitmap.
    pub open spec fn n_bitmap_blocks(self) -> int {
        ceil_div(self.ndatablocks as int, self.bits_per_block())
    }

    /// All layout invariants of a well-formed superblock: blocks are large
    /// enough to hold at least one inode and small enough that offset
    /// arithmetic cannot overflow, the regions appear in order, each region
    /// fits before the next one starts, the data region fits on the device,
    /// and the region sizes sum to at most the device size.
    pub open spec fn valid(self) -> bool {
        &&& DINODE_SIZE <= self.block_size <= GEOMETRY_MAX
        &&& self.nblocks <= GEOMETRY_MAX
        &&& 0 < self.inodestart < self.bmapstart < self.datastart
        &&& self.inodestart + self.n_inode_blocks() <= self.bmapstart
        &&& self.bmapstart + self.n_bitmap_blocks() <= self.datastart
        &&& self.datastart + self.ndatablocks <= self.nblocks
        &&& 1 + self.n_inode_blocks() + self.n_bitmap_blocks() + self.ndatablocks
            <= self.nblocks
    }
}

/// Every region of a valid superblock lies inside `[0, nblocks)` and the
/// regions are pairwise disjoint: the superblock is block 0, the inode
/// table ends before the bitmap starts, the bitmap ends before the data
/// region starts, and the data region ends within the device.
pub proof fn lemma_valid_regions_disjoint(sb: SuperBlock)
    requires
        sb.valid(),
    ensures
        0 < sb.inodestart,
        sb.inodestart + sb.n_inode_blocks() <= sb.bmapstart,
        sb.bmapstart + sb.n_bitmap_blocks() <= sb.datastart,
        sb.datastart + sb.ndatablocks <= sb.nblocks,
        sb.n_inode_blocks() >= 0,
        sb.n_bitmap_blocks() >= 0,
{
    assert(sb.ipb() >= 1) by (nonlinear_arith)
        requires
            DINODE_SIZE <= sb.block_size,
            sb.ipb() == sb.block_size as int / DINODE_SIZE as int,
    ;
    assert(sb.ninodes as int / sb.ipb() >= 0) by (nonlinear_arith)
        requires
            sb.ipb() >= 1,
            sb.ninodes >= 0,
    ;
    assert(sb.ndatablocks as int / sb.bits_per_block() >= 0) by (nonlinear_arith)
        requires
            sb.bits_per_block() >= 8,
            sb.ndatablocks >= 0,
    ;
}

/// Whether `sb` satisfies all layout invariants.
pub fn superblock_valid(sb: &SuperBlock) -> (r: bool)
    ensures
        r == sb.valid(),
{
    if !(DINODE_SIZE <= sb.block_size && sb.block_size <= GEOMETRY_MAX) {
        return false;
    }
    if sb.nblocks > GEOMETRY_MAX {
        return false;
    }
    if !(0 < sb.inodestart && sb.inodestart < sb.bmapstart && sb.bmapstart < sb.datastart) {
        return false;
    }
    let bs: u128 = sb.block_size as u128;
    let ipb: u128 = bs / (DINODE_SIZE as u128);
    proof {
        assert(ipb >= 1) by (nonlinear_arith)
            requires
                bs >= DINODE_SIZE,
                ipb == bs / (DINODE_SIZE as u128),
        ;
    }
    let ni: u128 = sb.ninodes as u128;
    let n_inode_blocks: u128 = ni / ipb + if ni % ipb == 0 { 0 } else { 1 };
    let bpb: u128 = 8 * bs;
    let nd: u128 = sb.ndatablocks as u128;
    let n_bitmap_blocks: u128 = nd / bpb + if nd % bpb == 0 { 0 } else { 1 };
    proof {
        assert(n_inode_blocks == sb.n_inode_blocks()) by (nonlinear_arith)
            requires
                ipb == sb.ipb(),
                ipb >= 1,
                ni == sb.ninodes,
                n_inode_blocks == ni / ipb + if ni % ipb == 0 { 0u128 } else { 1u128 },
                sb.n_inode_blocks() == ceil_div(sb.ninodes as int, sb.ipb()),
                ceil_div(sb.ninodes as int, sb.ipb()) == sb.ninodes as int / sb.ipb() + if sb.ninodes as int % sb.ipb() == 0 { 0int } else { 1int },
        ;
        assert(n_bitmap_blocks == sb.n_bitmap_blocks()) by (nonlinear_arith)
            requires
                bpb == sb.bits_per_block(),
                bpb >= 8,
                nd == sb.ndatablocks,
                n_bitmap_blocks == nd / bpb + if nd % bpb == 0 { 0u128 } else { 1u128 },
                sb.n_bitmap_blocks() == ceil_div(sb.ndatablocks as int, sb.bits_per_block()),
                ceil_div(sb.ndatablocks as int, sb.bits_per_block()) == sb.ndatablocks as int / sb.bits_per_block() + if sb.ndatablocks as int % sb.bits_per_block() == 0 { 0int } else { 1int },
        ;
    }
    if sb.inodestart as u128 + n_inode_blocks > sb.bmapstart as u128 {
        return false;
    }
    if sb.bmapstart as u128 + n_bitmap_blocks > sb.datastart as u128 {
        return false;
    }
    if sb.datastart as u128 + nd > sb.nblocks as u128 {
        return false;
    }
    if 1 + n_inode_blocks + n_bitmap_blocks + nd > sb.nblocks as u128 {
        return false;
    }
    true
}

/// The superblock decoded from the first `SUPERBLOCK_SIZE` bytes of `s`.
#[verifier::opaque]
pub open spec fn sb_of_bytes(s: Seq<u8>) -> SuperBlock {
    SuperBlock {
        block_size: le64(s.subrange(0, 8)) as u64,
        nblocks: le64(s.subrange(8, 16)) as u64,
        ninodes: le64(s.subrange(16, 24)) as u64,
        inodestart: le64(s.subrange(24, 32)) as u64,
        ndatablocks: le64(s.subrange(32, 40)) as u64,
        bmapstart: le64(s.subrange(40, 48)) as u64,
        datastart: le64(s.subrange(48, 56)) as u64,
    }
}

/// Encode `sb` as `SUPERBLOCK_SIZE` packed little-endian bytes.
pub fn encode_superblock(sb: &SuperBlock) -> (r: Vec<u8>)
    ensures
        r@.len() == SUPERBLOCK_SIZE,
        sb_of_bytes(r@) == *sb,
{
    proof {
        reveal(sb_of_bytes);
    }
    let mut r = u64_to_le(sb.block_size);
    let mut f1 = u64_to_le(sb.nblocks);
    let mut f2 = u64_to_le(sb.ninodes);
    let mut f3 = u64_to_le(sb.inodestart);
    let mut f4 = u64_to_le(sb.ndatablocks);
    let mut f5 = u64_to_le(sb.bmapstart);
    let mut f6 = u64_to_le(sb.datastart);
    let ghost g0 = r@;
    let ghost g1 = f1@;
    let ghost g2 = f2@;
    let ghost g3 = f3@;
    let ghost g4 = f4@;
    let ghost g5 = f5@;
    let ghost g6 = f6@;
    r.append(&mut f1);
    r.append(&mut f2);
    r.append(&mut f3);
    r.append(&mut f4);
    r.append(&mut f5);
    r.append(&mut f6);
    proof {
        assert(r@ == g0 + g1 + g2 + g3 + g4 + g5 + g6);
        assert(r@.subrange(0, 8) =~= g0);
        assert(r@.subrange(8, 16) =~= g1);
        assert(r@.subrange(16, 24) =~= g2);
        assert(r@.subrange(24, 32) =~= g3);
        assert(r@.subrange(32, 40) =~= g4);
        assert(r@.subrange(40, 48) =~= g5);
        assert(r@.subrange(48, 56) =~= g6);
    }
    r
}

/// Decode the superblock stored at the start of `b`.
pub fn decode_superblock(b: &Vec<u8>) -> (r: SuperBlock)
    requires
        SUPERBLOCK_SIZE <= b@.len(),
    ensures
        r == sb_of_bytes(b@.subrange(0, SUPERBLOCK_SIZE as int)),
{
    proof {
        reveal(sb_of_bytes);
    }
    let r = SuperBlock {
        block_size: u64_from_le(b, 0),
        nblocks: u64_from_le(b, 8),
        ninodes: u64_from_le(b, 16),
        inodestart: u64_from_le(b, 24),
        ndatablocks: u64_from_le(b, 32),
        bmapstart: u64_from_le(b, 40),
        datastart: u64_from_le(b, 48),
    };
    proof {
        let s = b@.subrange(0, SUPERBLOCK_SIZE as int);
        assert forall|o: int| 0 <= o <= 48 implies #[trigger] s.subrange(o, o + 8) =~= b@.subrange(
            o,
            o + 8,
        ) by {}
    }
    r
}


/// The mathematical value of an on-disk inode.
#[verifier::ext_equal]
pub struct DInodeV {
    /// File type.
    pub ft: FType,
    /// Number of directory entries referring to this inode.
    pub nlink: u16,
    /// Byte length of the file content.
    pub size: u64,
    /// The `NDIRECT` direct block pointers, as absolute block numbers;
    /// 0 means unused.
    pub direct: Seq<u64>,
}

/// An on-disk inode: file type, link count, content size in bytes, and
/// `NDIRECT` direct block pointers (absolute block numbers, 0 = unused).
#[derive(Debug, Clone)]
pub struct DInode {
    /// File type.
    pub ft: FType,
    /// Number of directory entries referring to this inode.
    pub nlink: u16,
    /// Byte length of the file content.
    pub size: u64,
    /// Direct block pointers; well-formed inodes hold exactly `NDIRECT`.
    pub direct_blocks: Vec<u64>,
}

impl View for DInode {
    type V = DInodeV;

    open spec fn view(&self) -> DInodeV {
        DInodeV {
            ft: self.ft,
            nlink: self.nlink,
            size: self.size,
            direct: self.direct_blocks@,
        }
    }
}

/// The value every inode holds on a freshly formatted disk.
pub open spec fn dinode_default() -> DInodeV {
    DInodeV { ft: FType::TFree, nlink: 0, size: 0, direct: Seq::new(NDIRECT as nat, |i: int| 0u64) }
}

impl Default for DInode {
    /// A free inode with no links, no content and no block pointers.
    fn default() -> (r: DInode)
        ensures
            r@ == dinode_default(),
    {
        let mut direct_blocks: Vec<u64> = Vec::new();
        let mut k: usize = 0;
        while k < NDIRECT
            invariant
                k <= NDIRECT,
                direct_blocks@.len() == k,
                forall|i: int| 0 <= i < k ==> direct_blocks@[i] == 0u64,
            decreases NDIRECT - k,
        {
            direct_blocks.push(0);
            k = k + 1;
        }
        let r = DInode { ft: FType::TFree, nlink: 0, size: 0, direct_blocks };
        proof {
            assert(r@.direct =~= dinode_default().direct);
            assert(r@ =~= dinode_default());
        }
        r
    }
}

/// Whether the two vectors hold the same numbers.
fn vec_u64_eq(a: &Vec<u64>, b: &Vec<u64>) -> (r: bool)
    ensures
        r == (a@ == b@),
{
    if a.len() != b.len() {
        proof {
            assert(a@ != b@);
        }
        return false;
    }
    let n: usize = a.len();
    let mut k: usize = 0;
    while k < n
        invariant
            n == a@.len() == b@.len(),
            k <= n,
            forall|i: int| 0 <= i < k ==> a@[i] == b@[i],
        decreases n - k,
    {
        if a[k] != b[k] {
            return false;
        }
        k = k + 1;
    }
    proof {
        assert(a@ =~= b@);
    }
    true
}

impl PartialEq for DInode {
    fn eq(&self, other: &DInode) -> (r: bool) {
        self.ft == other.ft && self.nlink == other.nlink && self.size == other.size
            && vec_u64_eq(&self.direct_blocks, &other.direct_blocks)
    }
}

impl vstd::std_specs::cmp::PartialEqSpecImpl for DInode {
    open spec fn obeys_eq_spec() -> bool {
        true
    }

    open spec fn eq_spec(&self, other: &DInode) -> bool {
        self@ == other@
    }
}

impl Eq for DInode {

}

/// A logical inode: an inode number paired with the on-disk record.
#[derive(Debug, Clone)]
pub struct Inode {
    /// The inode number.
    pub inum: u64,
    /// The on-disk record.
    pub disk_node: DInode,
}

impl PartialEq for Inode {
    fn eq(&self, other: &Inode) -> (r: bool) {
        self.inum == other.inum && self.disk_node == other.disk_node
    }
}

impl vstd::std_specs::cmp::PartialEqSpecImpl for Inode {
    open spec fn obeys_eq_spec() -> bool {
        true
    }

    open spec fn eq_spec(&self, other: &Inode) -> bool {
        self.inum == other.inum && self.disk_node@ == other.disk_node@
    }
}

impl Eq for Inode {

}

/// `blocks` padded with zeros to the full width of `NDIRECT` pointers.
pub open spec fn padded_direct(blocks: Seq<u64>) -> Seq<u64> {
    blocks + Seq::new((NDIRECT - blocks.len()) as nat, |i: int| 0u64)
}

impl Inode {
    /// Pair an inode number with an on-disk record.
    pub fn new(inum: u64, disk_node: DInode) -> (r: Inode)
        ensures
            r.inum == inum,
            r.disk_node@ == disk_node@,
    {
        Inode { inum, disk_node }
    }

    /// Build an inode from its parts, padding the block list with zeros.
    /// Refuses a link count beyond the on-disk width and too many blocks.
    pub fn from_parts(inum: u64, ft: FType, nlink: u64, size: u64, blocks: &[u64]) -> (r: Option<
        Inode,
    >)
        ensures
            (nlink > u16::MAX || blocks@.len() > NDIRECT) <==> r is None,
            r matches Some(ino) ==> {
                &&& ino.inum == inum
                &&& ino.disk_node@.ft == ft
                &&& ino.disk_node@.nlink == nlink
                &&& ino.disk_node@.size == size
                &&& ino.disk_node@.direct == padded_direct(blocks@)
                &&& ino.disk_node.direct_blocks@.len() == NDIRECT
            },
    {
        if nlink > u16::MAX as u64 || blocks.len() > NDIRECT {
            return None;
        }
        let n: usize = blocks.len();
        let mut direct_blocks: Vec<u64> = Vec::new();
        let mut k: usize = 0;
        while k < n
            invariant
                k <= n,
                n == blocks@.len(),
                direct_blocks@.len() == k,
                forall|i: int| 0 <= i < k ==> direct_blocks@[i] == blocks@[i],
            decreases n - k,
        {
            direct_blocks.push(blocks[k]);
            k = k + 1;
        }
        while k < NDIRECT
            invariant
                n <= k <= NDIRECT,
                n == blocks@.len(),
                direct_blocks@.len() == k,
                forall|i: int| 0 <= i < n ==> direct_blocks@[i] == blocks@[i],
                forall|i: int| n <= i < k ==> direct_blocks@[i] == 0u64,
            decreases NDIRECT - k,
        {
            direct_blocks.push(0);
            k = k + 1;
        }
        proof {
            assert(direct_blocks@ =~= padded_direct(blocks@));
        }
        Some(Inode { inum, disk_node: DInode { ft, nlink: nlink as u16, size, direct_blocks } })
    }
}

/// The numeric tag that encodes a file type on disk.
pub open spec fn ft_tag(ft: FType) -> u16 {
    match ft {
        FType::TFree => 0u16,
        FType::TFile => 1u16,
        FType::TDir => 2u16,
    }
}

/// The file type encoded by a numeric tag; unknown tags read as free.
pub open spec fn ft_of(v: int) -> FType {
    if v == 1 {
        FType::TFile
    } else if v == 2 {
        FType::TDir
    } else {
        FType::TFree
    }
}

/// The inode record decoded from the first `DINODE_SIZE` bytes of `s`.
#[verifier::opaque]
pub open spec fn dinode_of(s: Seq<u8>) -> DInodeV {
    DInodeV {
        ft: ft_of(le16(s.subrange(0, 2))),
        nlink: le16(s.subrange(2, 4)) as u16,
        size: le64(s.subrange(4, 12)) as u64,
        direct: Seq::new(
            NDIRECT as nat,
            |t: int| le64(s.subrange(12 + 8 * t, 20 + 8 * t)) as u64,
        ),
    }
}

/// Encode `di` as `DINODE_SIZE` packed bytes.
pub fn encode_dinode(di: &DInode) -> (r: Vec<u8>)
    requires
        di.direct_blocks@.len() == NDIRECT,
    ensures
        r@.len() == DINODE_SIZE,
        dinode_of(r@) == di@,
{
    proof {
        reveal(dinode_of);
    }
    let tag: u16 = match di.ft {
        FType::TFree => 0,
        FType::TFile => 1,
        FType::TDir => 2,
    };
    let mut r = u16_to_le(tag);
    let mut enc_nlink = u16_to_le(di.nlink);
    let mut enc_size = u64_to_le(di.size);
    let ghost g_tag = r@;
    let ghost g_nlink = enc_nlink@;
    let ghost g_size = enc_size@;
    r.append(&mut enc_nlink);
    r.append(&mut enc_size);
    proof {
        assert(r@.subrange(0, 2) =~= g_tag);
        assert(r@.subrange(2, 4) =~= g_nlink);
        assert(r@.subrange(4, 12) =~= g_size);
    }
    let mut t: usize = 0;
    while t < NDIRECT
        invariant
            t <= NDIRECT,
            di.direct_blocks@.len() == NDIRECT,
            r@.len() == 12 + 8 * t,
            le16(r@.subrange(0, 2)) == tag as int,
            le16(r@.subrange(2, 4)) == di.nlink as int,
            le64(r@.subrange(4, 12)) == di.size as int,
            tag == ft_tag(di.ft),
            forall|u: int|
                0 <= u < t ==> le64(#[trigger] r@.subrange(12 + 8 * u, 20 + 8 * u))
                    == di.direct_blocks@[u] as int,
        decreases NDIRECT - t,
    {
        let mut enc = u64_to_le(di.direct_blocks[t]);
        let ghost g_enc = enc@;
        let ghost pre = r@;
        r.append(&mut enc);
        proof {
            assert(r@.subrange(0, 2) =~= pre.subrange(0, 2));
            assert(r@.subrange(2, 4) =~= pre.subrange(2, 4));
            assert(r@.subrange(4, 12) =~= pre.subrange(4, 12));
            assert forall|u: int| 0 <= u < t implies #[trigger] r@.subrange(12 + 8 * u, 20 + 8 * u)
                =~= pre.subrange(12 + 8 * u, 20 + 8 * u) by {}
            assert(r@.subrange(12 + 8 * t, 20 + 8 * t) =~= g_enc);
        }
        t = t + 1;
    }
    proof {
        assert(dinode_of(r@).direct =~= di@.direct);
        assert(dinode_of(r@) =~= di@);
    }
    r
}

/// Decode the inode record stored at offset `off` of `b`.
pub fn decode_dinode(b: &Vec<u8>, off: usize) -> (r: DInode)
    requires
        off + DINODE_SIZE <= b@.len(),
    ensures
        r@ == dinode_of(b@.subrange(off as int, off as int + DINODE_SIZE as int)),
        r.direct_blocks@.len() == NDIRECT,
{
    proof {
        reveal(dinode_of);
    }
    let _l: usize = b.len();
    let tag: u16 = u16_from_le(b, off);
    let nlink: u16 = u16_from_le(b, off + 2);
    let size: u64 = u64_from_le(b, off + 4);
    let ft = if tag == 1 {
        FType::TFile
    } else if tag == 2 {
        FType::TDir
    } else {
        FType::TFree
    };
    let mut direct_blocks: Vec<u64> = Vec::new();
    let mut t: usize = 0;
    while t < NDIRECT
        invariant
            t <= NDIRECT,
            off + DINODE_SIZE <= b@.len(),
            _l == b@.len(),
            direct_blocks@.len() == t,
            forall|u: int|
                0 <= u < t ==> direct_blocks@[u] as int == le64(
                    #[trigger] b@.subrange(off + 12 + 8 * u, off + 20 + 8 * u),
                ),
        decreases NDIRECT - t,
    {
        direct_blocks.push(u64_from_le(b, off + 12 + 8 * t));
        t = t + 1;
    }
    let r = DInode { ft, nlink, size, direct_blocks };
    proof {
        let s = b@.subrange(off as int, off as int + DINODE_SIZE as int);
        assert(s.subrange(0, 2) =~= b@.subrange(off as int, off as int + 2));
        assert(s.subrange(2, 4) =~= b@.subrange(off as int + 2, off as int + 4));
        assert(s.subrange(4, 12) =~= b@.subrange(off as int + 4, off as int + 12));
        assert forall|u: int| 0 <= u < NDIRECT implies #[trigger] s.subrange(12 + 8 * u, 20 + 8 * u)
            =~= b@.subrange(off + 12 + 8 * u, off + 20 + 8 * u) by {}
        assert(r@.direct =~= dinode_of(s).direct);
        assert(r@ =~= dinode_of(s));
    }
    r
}


/// Two byte sequences with the same first `SUPERBLOCK_SIZE` bytes decode
/// to the same superblock.
pub proof fn lemma_sb_of_bytes_prefix_eq(s1: Seq<u8>, s2: Seq<u8>)
    requires
        s1.len() >= SUPERBLOCK_SIZE,
        s2.len() >= SUPERBLOCK_SIZE,
        s1.subrange(0, SUPERBLOCK_SIZE as int) == s2.subrange(0, SUPERBLOCK_SIZE as int),
    ensures
        sb_of_bytes(s1) == sb_of_bytes(s2),
{
    reveal(sb_of_bytes);
    let p1 = s1.subrange(0, SUPERBLOCK_SIZE as int);
    let p2 = s2.subrange(0, SUPERBLOCK_SIZE as int);
    assert(s1.subrange(0, 8) =~= p1.subrange(0, 8));
    assert(s2.subrange(0, 8) =~= p2.subrange(0, 8));
    assert(s1.subrange(0, 8) == s2.subrange(0, 8));
    assert(s1.subrange(8, 16) =~= p1.subrange(8, 16));
    assert(s2.subrange(8, 16) =~= p2.subrange(8, 16));
    assert(s1.subrange(8, 16) == s2.subrange(8, 16));
    assert(s1.subrange(16, 24) =~= p1.subrange(16, 24));
    assert(s2.subrange(16, 24) =~= p2.subrange(16, 24));
    assert(s1.subrange(16, 24) == s2.subrange(16, 24));
    assert(s1.subrange(24, 32) =~= p1.subrange(24, 32));
    assert(s2.subrange(24, 32) =~= p2.subrange(24, 32));
    assert(s1.subrange(24, 32) == s2.subrange(24, 32));
    assert(s1.subrange(32, 40) =~= p1.subrange(32, 40));
    assert(s2.subrange(32, 40) =~= p2.subrange(32, 40));
    assert(s1.subrange(32, 40) == s2.subrange(32, 40));
    assert(s1.subrange(40, 48) =~= p1.subrange(40, 48));
    assert(s2.subrange(40, 48) =~= p2.subrange(40, 48));
    assert(s1.subrange(40, 48) == s2.subrange(40, 48));
    assert(s1.subrange(48, 56) =~= p1.subrange(48, 56));
    assert(s2.subrange(48, 56) =~= p2.subrange(48, 56));
    assert(s1.subrange(48, 56) == s2.subrange(48, 56));
}

/// A run of `DINODE_SIZE` zero bytes decodes to the default inode.
pub proof fn lemma_dinode_of_zeros(s: Seq<u8>)
    requires
        s.len() == DINODE_SIZE,
        forall|i: int| 0 <= i < s.len() ==> s[i] == 0u8,
    ensures
        dinode_of(s) == dinode_default(),
{
    reveal(dinode_of);
    assert(le16(zeros(2)) == 0);
    assert(le64(zeros(8)) == 0);
    assert(s.subrange(0, 2) =~= zeros(2));
    assert(s.subrange(2, 4) =~= zeros(2));
    assert(s.subrange(4, 12) =~= zeros(8));
    assert forall|t: int| 0 <= t < NDIRECT implies le64(
        #[trigger] s.subrange(12 + 8 * t, 20 + 8 * t),
    ) == 0 by {
        assert(s.subrange(12 + 8 * t, 20 + 8 * t) =~= zeros(8));
    }
    assert(dinode_of(s).direct =~= dinode_default().direct);
    assert(dinode_of(s) =~= dinode_default());
}


/// `ceil_div(a, b) * b` covers `a`, and one multiple less does not.
pub proof fn lemma_ceil_bounds(a: int, b: int)
    requires
        a >= 0,
        b > 0,
    ensures
        a <= ceil_div(a, b) * b,
        (ceil_div(a, b) - 1) * b < a,
{
    assert(a <= ceil_div(a, b) * b && (ceil_div(a, b) - 1) * b < a) by (nonlinear_arith)
        requires
            a >= 0,
            b > 0,
            ceil_div(a, b) == a / b + if a % b == 0 {
                0int
            } else {
                1int
            },
    ;
}

} // verus!
