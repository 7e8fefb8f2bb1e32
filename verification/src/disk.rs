//! The mathematical view of a disk: the decoded superblock, the decoded
//! inode table, the allocation bitmap read bit by bit, and the data blocks,
//! together with the range facts that place every slot inside its region.

use vstd::prelude::*;
use vstd::arithmetic::div_mod::{lemma_fundamental_div_mod_converse, lemma_mod_multiples_vanish};
use crate::bytes::nth_bit;
use crate::layout::{
    ceil_div, dinode_of, sb_of_bytes, DInodeV, SuperBlock, DINODE_SIZE, NDIRECT, SUPERBLOCK_SIZE,
};

verus! {

/// The superblock stored in block 0 of disk `d`.
pub open spec fn sb_of(d: Seq<Seq<u8>>) -> SuperBlock {
    sb_of_bytes(d[0])
}

/// A disk is well formed when block 0 decodes to a valid superblock that
/// matches the disk's actual geometry.
pub open spec fn disk_wf(d: Seq<Seq<u8>>) -> bool {
    &&& sb_of(d).valid()
    &&& d.len() == sb_of(d).nblocks
    &&& forall|i: int| 0 <= i < d.len() ==> (#[trigger] d[i]).len() == sb_of(d).block_size
}

/// Absolute number of the block holding inode `k`.
pub open spec fn inode_block(sb: SuperBlock, k: int) -> int {
    sb.inodestart + k / sb.ipb()
}

/// Byte offset of inode `k` inside its block.
pub open spec fn inode_offset(sb: SuperBlock, k: int) -> int {
    DINODE_SIZE * (k % sb.ipb())
}

/// The record of inode `k` as stored on disk `d`.
pub open spec fn inode_v(d: Seq<Seq<u8>>, k: int) -> DInodeV {
    let sb = sb_of(d);
    dinode_of(
        d[inode_block(sb, k)].subrange(
            inode_offset(sb, k),
            inode_offset(sb, k) + DINODE_SIZE,
        ),
    )
}

/// Absolute number of the bitmap block holding allocation bit `i`.
pub open spec fn bit_block(sb: SuperBlock, i: int) -> int {
    sb.bmapstart + i / sb.bits_per_block()
}

/// Offset of the byte holding allocation bit `i` inside its bitmap block.
pub open spec fn bit_byte(sb: SuperBlock, i: int) -> int {
    (i % sb.bits_per_block()) / 8
}

/// Allocation bit of data block `i` (data-relative) on disk `d`:
/// true means allocated.
pub open spec fn bit_of(d: Seq<Seq<u8>>, i: int) -> bool {
    let sb = sb_of(d);
    nth_bit(d[bit_block(sb, i)][bit_byte(sb, i)], (i % 8) as u8)
}

/// The bytes of data block `j` (data-relative) on disk `d`.
pub open spec fn data_block(d: Seq<Seq<u8>>, j: int) -> Seq<u8> {
    d[sb_of(d).datastart + j]
}

/// Both disks store the same inode table.
pub open spec fn same_inodes(d1: Seq<Seq<u8>>, d2: Seq<Seq<u8>>) -> bool {
    forall|k: int| 0 <= k < sb_of(d1).ninodes ==> #[trigger] inode_v(d2, k) == inode_v(d1, k)
}

/// Both disks store the same allocation bitmap.
pub open spec fn same_bits(d1: Seq<Seq<u8>>, d2: Seq<Seq<u8>>) -> bool {
    forall|i: int| 0 <= i < sb_of(d1).ndatablocks ==> #[trigger] bit_of(d2, i) == bit_of(d1, i)
}

/// Both disks store the same data region.
pub open spec fn same_data(d1: Seq<Seq<u8>>, d2: Seq<Seq<u8>>) -> bool {
    forall|j: int|
        0 <= j < sb_of(d1).ndatablocks ==> #[trigger] data_block(d2, j) == data_block(d1, j)
}

/// The data regions agree except possibly at data block `j0`.
pub open spec fn same_data_except(d1: Seq<Seq<u8>>, d2: Seq<Seq<u8>>, j0: int) -> bool {
    forall|j: int|
        0 <= j < sb_of(d1).ndatablocks && j != j0 ==> #[trigger] data_block(d2, j) == data_block(
            d1,
            j,
        )
}

/// The bitmaps agree except possibly at bit `i0`.
pub open spec fn same_bits_except(d1: Seq<Seq<u8>>, d2: Seq<Seq<u8>>, i0: int) -> bool {
    forall|i: int|
        0 <= i < sb_of(d1).ndatablocks && i != i0 ==> #[trigger] bit_of(d2, i) == bit_of(d1, i)
}

/// The inode tables agree except possibly at inode `k0`.
pub open spec fn same_inodes_except(d1: Seq<Seq<u8>>, d2: Seq<Seq<u8>>, k0: int) -> bool {
    forall|k: int|
        0 <= k < sb_of(d1).ninodes && k != k0 ==> #[trigger] inode_v(d2, k) == inode_v(d1, k)
}

/// For a valid superblock and an in-range inode number, the inode's slot
/// lies inside the inode region and inside its block.
pub proof fn lemma_inode_slot_in_range(sb: SuperBlock, k: int)
    requires
        sb.valid(),
        0 <= k < sb.ninodes,
    ensures
        sb.inodestart <= inode_block(sb, k),
        inode_block(sb, k) < sb.inodestart + sb.n_inode_blocks(),
        inode_block(sb, k) < sb.bmapstart,
        0 <= inode_offset(sb, k),
        inode_offset(sb, k) + DINODE_SIZE <= sb.block_size,
{
    let ipb = sb.ipb();
    assert(ipb >= 1) by (nonlinear_arith)
        requires
            DINODE_SIZE <= sb.block_size,
            ipb == sb.block_size as int / DINODE_SIZE as int,
    ;
    let q = k / ipb;
    let r = k % ipb;
    assert(k == q * ipb + r && 0 <= r < ipb && q >= 0) by (nonlinear_arith)
        requires
            ipb >= 1,
            k >= 0,
            q == k / ipb,
            r == k % ipb,
    ;
    // The offset fits inside the block: DINODE_SIZE * (r + 1) <= DINODE_SIZE * ipb <= block_size.
    assert(DINODE_SIZE * r + DINODE_SIZE <= sb.block_size) by (nonlinear_arith)
        requires
            0 <= r < ipb,
            ipb == sb.block_size as int / DINODE_SIZE as int,
            sb.block_size >= DINODE_SIZE,
    ;
    // The block index is below the region's block count.
    let nib = sb.n_inode_blocks();
    assert(q < nib) by (nonlinear_arith)
        requires
            ipb >= 1,
            0 <= k < sb.ninodes,
            q == k / ipb,
            nib == ceil_div(sb.ninodes as int, ipb),
            ceil_div(sb.ninodes as int, ipb) == sb.ninodes as int / ipb + if sb.ninodes as int
                % ipb == 0 {
                0int
            } else {
                1int
            },
    ;
}

/// For a valid superblock and an in-range data-relative bit index, the
/// bit's byte lies inside the bitmap region and inside its block.
pub proof fn lemma_bit_in_range(sb: SuperBlock, i: int)
    requires
        sb.valid(),
        0 <= i < sb.ndatablocks,
    ensures
        sb.bmapstart <= bit_block(sb, i),
        bit_block(sb, i) < sb.bmapstart + sb.n_bitmap_blocks(),
        bit_block(sb, i) < sb.datastart,
        0 <= bit_byte(sb, i),
        bit_byte(sb, i) < sb.block_size,
        0 <= i % 8 < 8,
{
    let bpb = sb.bits_per_block();
    let q = i / bpb;
    let r = i % bpb;
    assert(i == q * bpb + r && 0 <= r < bpb && q >= 0) by (nonlinear_arith)
        requires
            bpb >= 8,
            i >= 0,
            q == i / bpb,
            r == i % bpb,
    ;
    assert(r / 8 < sb.block_size) by (nonlinear_arith)
        requires
            0 <= r < bpb,
            bpb == 8 * sb.block_size as int,
    ;
    let nbb = sb.n_bitmap_blocks();
    assert(q < nbb) by (nonlinear_arith)
        requires
            bpb >= 8,
            0 <= i < sb.ndatablocks,
            q == i / bpb,
            nbb == ceil_div(sb.ndatablocks as int, bpb),
            ceil_div(sb.ndatablocks as int, bpb) == sb.ndatablocks as int / bpb + if sb.ndatablocks
                as int % bpb == 0 {
                0int
            } else {
                1int
            },
    ;
}


/// The coordinates of the bit `8 * block_size * bi + 8 * j + k` of the
/// bitmap: it lives in the `bi`-th bitmap block, in byte `j`, at bit `k`.
pub proof fn lemma_bit_coords_of(sb: SuperBlock, bi: int, j: int, k: int)
    requires
        sb.valid(),
        0 <= bi,
        0 <= j < sb.block_size,
        0 <= k < 8,
    ensures
        bit_block(sb, bi * sb.bits_per_block() + 8 * j + k) == sb.bmapstart + bi,
        bit_byte(sb, bi * sb.bits_per_block() + 8 * j + k) == j,
        (bi * sb.bits_per_block() + 8 * j + k) % 8 == k,
{
    let bpb = sb.bits_per_block();
    let g = bi * bpb + 8 * j + k;
    assert(0 <= 8 * j + k < bpb) by (nonlinear_arith)
        requires
            0 <= j < sb.block_size,
            0 <= k < 8,
            bpb == 8 * sb.block_size as int,
    ;
    lemma_fundamental_div_mod_converse(g, bpb, bi, 8 * j + k);
    lemma_fundamental_div_mod_converse(8 * j + k, 8, j, k);
    assert(g == 8 * (bi * sb.block_size as int + j) + k) by (nonlinear_arith)
        requires
            g == bi * bpb + 8 * j + k,
            bpb == 8 * sb.block_size as int,
    ;
    lemma_mod_multiples_vanish(bi * sb.block_size as int + j, k, 8);
    assert(k % 8 == k);
}

/// A bit index is determined by its block, byte, and bit coordinates.
pub proof fn lemma_bit_coords_unique(sb: SuperBlock, i: int, j: int)
    requires
        sb.valid(),
        0 <= i,
        0 <= j,
        bit_block(sb, i) == bit_block(sb, j),
        bit_byte(sb, i) == bit_byte(sb, j),
        i % 8 == j % 8,
    ensures
        i == j,
{
    let bpb = sb.bits_per_block();
    lemma_bit_recompose(sb, i);
    lemma_bit_recompose(sb, j);
}

/// Any nonnegative bit index is rebuilt from its three coordinates.
pub proof fn lemma_bit_recompose(sb: SuperBlock, i: int)
    requires
        sb.valid(),
        0 <= i,
    ensures
        i == (i / sb.bits_per_block()) * sb.bits_per_block() + ((i % sb.bits_per_block()) / 8) * 8
            + i % 8,
{
    let bpb = sb.bits_per_block();
    let q = i / bpb;
    let r = i % bpb;
    assert(i == q * bpb + r && 0 <= r < bpb) by (nonlinear_arith)
        requires
            bpb >= 8,
            0 <= i,
            q == i / bpb,
            r == i % bpb,
    ;
    assert(r == (r / 8) * 8 + r % 8) by (nonlinear_arith)
        requires
            0 <= r,
    ;
    assert(i == 8 * (q * sb.block_size as int) + r) by (nonlinear_arith)
        requires
            i == q * bpb + r,
            bpb == 8 * sb.block_size as int,
    ;
    lemma_mod_multiples_vanish(q * sb.block_size as int, r, 8);
    assert(i % 8 == r % 8);
}


/// Number of clear allocation bits among the first `upto` data blocks.
pub open spec fn free_count(d: Seq<Seq<u8>>, upto: int) -> int
    decreases upto,
{
    if upto <= 0 {
        0
    } else {
        free_count(d, upto - 1) + if !bit_of(d, upto - 1) {
            1int
        } else {
            0int
        }
    }
}

/// Two disks with the same bits below `upto` hold the same number of
/// free blocks there.
pub proof fn lemma_free_count_same(d1: Seq<Seq<u8>>, d2: Seq<Seq<u8>>, upto: int)
    requires
        forall|m: int| 0 <= m < upto ==> #[trigger] bit_of(d2, m) == bit_of(d1, m),
    ensures
        free_count(d2, upto) == free_count(d1, upto),
    decreases upto,
{
    if upto > 0 {
        lemma_free_count_same(d1, d2, upto - 1);
    }
}

/// Setting one clear bit lowers the free count by exactly one.
pub proof fn lemma_free_count_after_set(d1: Seq<Seq<u8>>, d2: Seq<Seq<u8>>, g: int, upto: int)
    requires
        0 <= g < upto,
        !bit_of(d1, g),
        bit_of(d2, g),
        forall|m: int| 0 <= m < upto && m != g ==> #[trigger] bit_of(d2, m) == bit_of(d1, m),
    ensures
        free_count(d2, upto) == free_count(d1, upto) - 1,
    decreases upto,
{
    if g == upto - 1 {
        lemma_free_count_same(d1, d2, upto - 1);
    } else {
        lemma_free_count_after_set(d1, d2, g, upto - 1);
    }
}

/// A region whose bits are all set has no free block.
pub proof fn lemma_free_count_full(d: Seq<Seq<u8>>, upto: int)
    requires
        forall|m: int| 0 <= m < upto ==> #[trigger] bit_of(d, m),
    ensures
        free_count(d, upto) == 0,
    decreases upto,
{
    if upto > 0 {
        lemma_free_count_full(d, upto - 1);
    }
}

} // verus!
