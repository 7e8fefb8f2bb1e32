use minifs::block::{BlockFS, BlockFSError};
use minifs::device::Block;
use minifs::layout::SuperBlock;

fn small_superblock() -> SuperBlock {
    SuperBlock {
        block_size: 1000,
        nblocks: 10,
        ninodes: 6,
        inodestart: 1,
        ndatablocks: 5,
        bmapstart: 4,
        datastart: 5,
    }
}

/// Allocation is first-fit and zeroes the block; freeing clears exactly
/// one bitmap bit, and the freed bit is reused first.
#[test]
fn check_allocated() {
    let sb = small_superblock();
    let mut my_fs = BlockFS::mkfs(&sb).unwrap();
    let got_sb = my_fs.sup_get().unwrap();

    // fill up all data blocks
    for i in 0..sb.ndatablocks {
        assert_eq!(my_fs.b_alloc().unwrap(), i);
    }

    // every allocated block reads back zeroed
    for i in 0..sb.ndatablocks {
        let b = my_fs.b_get(i + got_sb.datastart).unwrap();
        assert_eq!(b, Block::new_zero(i + got_sb.datastart, sb.block_size));
    }

    // write something into an allocated block
    let data = vec![1u8];
    let mut block = Block::new_zero(6, sb.block_size);
    block.write_data(&data, 0).unwrap();
    my_fs.b_put(&block).unwrap();
    assert_eq!(my_fs.b_get(6).unwrap(), block);

    // free the written block
    my_fs.b_free(6 - sb.datastart).unwrap();

    // the bitmap shows exactly bit 1 cleared
    let bb = my_fs.b_get(4).unwrap();
    let byte = bb.read_data(0, 1).unwrap();
    assert_eq!(byte[0], 0b0001_1101);

    // allocating again reuses the freed block
    assert_eq!(my_fs.b_alloc().unwrap(), 6 - sb.datastart);
    let bb = my_fs.b_get(4).unwrap();
    let byte = bb.read_data(0, 1).unwrap();
    assert_eq!(byte[0], 0b0001_1111);
}

/// Filling a multi-block bitmap sets every bit of the first bitmap block
/// and exactly the covered bits of the second.
#[test]
fn big_superblock_test() {
    let sb = SuperBlock {
        block_size: 500,
        nblocks: 10000,
        ninodes: 10,
        inodestart: 1,
        ndatablocks: 5000,
        bmapstart: 25,
        datastart: 100,
    };
    let mut my_fs = BlockFS::mkfs(&sb).unwrap();

    for i in 0..sb.ndatablocks {
        assert_eq!(my_fs.b_alloc().unwrap(), i);
    }

    // the first bitmap block is saturated
    let bb = my_fs.b_get(25).unwrap();
    let bytes = bb.read_data(0, 500).unwrap();
    for i in 0..bytes.len() {
        assert_eq!(bytes[i], 0b1111_1111);
    }

    // the second holds the remaining 1000 bits and nothing more
    let bb = my_fs.b_get(26).unwrap();
    let bytes = bb.read_data(0, 126).unwrap();
    for i in 0..125 {
        assert_eq!(bytes[i], 0b1111_1111);
    }
    assert_eq!(bytes[125], 0b0000_0000);
}

/// Exhausting the data region fails allocation; freeing a free bit fails.
#[test]
fn alloc_exhaustion_and_double_free() {
    let sb = small_superblock();
    let mut fs = BlockFS::mkfs(&sb).unwrap();
    for i in 0..sb.ndatablocks {
        assert_eq!(fs.b_alloc().unwrap(), i);
    }
    assert!(matches!(fs.b_alloc(), Err(BlockFSError::OutsideOfTheBoundariesError)));

    fs.b_free(2).unwrap();
    assert!(matches!(fs.b_free(2), Err(BlockFSError::MemoryAlreadyDeallocated)));
    assert!(matches!(fs.b_free(99), Err(BlockFSError::OutsideOfTheBoundariesError)));
}

/// Zeroing overwrites a data block and rejects an out-of-range index.
#[test]
fn zero_data_block() {
    let sb = small_superblock();
    let mut fs = BlockFS::mkfs(&sb).unwrap();
    let data = vec![7u8, 8, 9];
    let mut block = Block::new_zero(sb.datastart, sb.block_size);
    block.write_data(&data, 10).unwrap();
    fs.b_put(&block).unwrap();
    let read = fs.b_get(sb.datastart).unwrap().read_data(10, 3).unwrap();
    assert_eq!(read, vec![7u8, 8, 9]);

    fs.b_zero(0).unwrap();
    let read = fs.b_get(sb.datastart).unwrap().read_data(10, 3).unwrap();
    assert_eq!(read, vec![0u8, 0, 0]);

    assert!(matches!(fs.b_zero(5), Err(BlockFSError::OutsideOfTheBoundariesError)));
}

/// Raw block access is bounds checked against the device size.
#[test]
fn raw_block_bounds() {
    let sb = small_superblock();
    let mut fs = BlockFS::mkfs(&sb).unwrap();
    assert!(matches!(
        fs.b_get(10),
        Err(BlockFSError::FileSystemError(minifs::device::DeviceError::BlockOutOfRange))
    ));
    let b = Block::new_zero(10, sb.block_size);
    assert!(matches!(
        fs.b_put(&b),
        Err(BlockFSError::FileSystemError(minifs::device::DeviceError::BlockOutOfRange))
    ));
    let b = Block::new_zero(6, 999);
    assert!(matches!(
        fs.b_put(&b),
        Err(BlockFSError::FileSystemError(minifs::device::DeviceError::BlockSizeMismatch))
    ));
}
