use minifs::block::BlockFS;
use minifs::layout::SuperBlock;

/// Region order violations make a superblock invalid.
#[test]
fn bad_order_superblock_test() {
    let bad_order_superblock1 = SuperBlock {
        block_size: 1000,
        nblocks: 100,
        ninodes: 10,
        inodestart: 10,
        ndatablocks: 5,
        bmapstart: 1,
        datastart: 5,
    };
    assert_eq!(BlockFS::sb_valid(&bad_order_superblock1), false);

    let bad_order_superblock2 = SuperBlock {
        block_size: 1000,
        nblocks: 100,
        ninodes: 10,
        inodestart: 1,
        ndatablocks: 5,
        bmapstart: 10,
        datastart: 7,
    };
    assert_eq!(BlockFS::sb_valid(&bad_order_superblock2), false);

    let bad_order_superblock3 = SuperBlock {
        block_size: 1000,
        nblocks: 100,
        ninodes: 10,
        inodestart: 5,
        ndatablocks: 5,
        bmapstart: 10,
        datastart: 1,
    };
    assert_eq!(BlockFS::sb_valid(&bad_order_superblock3), false);
}

/// A region that overlaps the next one makes a superblock invalid.
#[test]
fn bad_region_size_superblock_test() {
    let bad_region_size_superblock1 = SuperBlock {
        block_size: 1000,
        nblocks: 100,
        ninodes: 10,
        inodestart: 1,
        ndatablocks: 20,
        bmapstart: 2,
        datastart: 10,
    };
    assert_eq!(BlockFS::sb_valid(&bad_region_size_superblock1), false);
}

/// Well-laid-out superblocks are accepted.
#[test]
fn good_superblock_test() {
    let good_superblock1 = SuperBlock {
        block_size: 1000,
        nblocks: 100,
        ninodes: 10,
        inodestart: 1,
        ndatablocks: 20,
        bmapstart: 6,
        datastart: 7,
    };
    assert_eq!(BlockFS::sb_valid(&good_superblock1), true);

    let good_superblock2 = SuperBlock {
        block_size: 1000,
        nblocks: 10,
        ninodes: 6,
        inodestart: 1,
        ndatablocks: 5,
        bmapstart: 4,
        datastart: 5,
    };
    assert_eq!(BlockFS::sb_valid(&good_superblock2), true);
}

/// Formatting with an invalid superblock is refused.
#[test]
fn mkfs_rejects_invalid_superblock() {
    let bad = SuperBlock {
        block_size: 1000,
        nblocks: 100,
        ninodes: 10,
        inodestart: 10,
        ndatablocks: 5,
        bmapstart: 1,
        datastart: 5,
    };
    let r = BlockFS::mkfs(&bad);
    assert!(matches!(r, Err(minifs::block::BlockFSError::SuperBlockInvalid)));
}

/// The stored superblock survives a put and a get.
#[test]
fn superblock_store_roundtrip() {
    let sb = SuperBlock {
        block_size: 1000,
        nblocks: 10,
        ninodes: 6,
        inodestart: 1,
        ndatablocks: 5,
        bmapstart: 4,
        datastart: 5,
    };
    let mut fs = BlockFS::mkfs(&sb).unwrap();
    assert_eq!(fs.sup_get().unwrap(), sb);
    fs.sup_put(&sb).unwrap();
    assert_eq!(fs.sup_get().unwrap(), sb);
}

/// Unmounting and mounting again preserves the filesystem; a device whose
/// geometry disagrees with the stored superblock is refused.
#[test]
fn mount_roundtrip_and_mismatch() {
    let sb = SuperBlock {
        block_size: 1000,
        nblocks: 10,
        ninodes: 6,
        inodestart: 1,
        ndatablocks: 5,
        bmapstart: 4,
        datastart: 5,
    };
    let fs = BlockFS::mkfs(&sb).unwrap();
    let dev = fs.unmountfs();
    let fs = BlockFS::mountfs(dev).unwrap();
    assert_eq!(fs.sup_get().unwrap(), sb);

    // a fresh zeroed device stores no valid superblock
    let blank = minifs::device::Device::new(1000, 10);
    assert!(matches!(
        BlockFS::mountfs(blank),
        Err(minifs::block::BlockFSError::SuperBlockInvalid)
    ));

    // a stored superblock that contradicts the device geometry is refused
    let mut fs = fs;
    let mut other = sb;
    other.nblocks = 100;
    other.ndatablocks = 20;
    other.bmapstart = 6;
    other.datastart = 7;
    other.inodestart = 1;
    fs.sup_put(&other).unwrap();
    let dev = fs.unmountfs();
    assert!(matches!(
        BlockFS::mountfs(dev),
        Err(minifs::block::BlockFSError::DeviceConfigurationInvalid)
    ));
}

/// The little-endian integer codec round-trips.
#[test]
fn le_codec_roundtrip() {
    for x in [0u64, 1, 0xff, 0x1234_5678_9abc_def0, u64::MAX] {
        let enc = minifs::bytes::u64_to_le(x);
        assert_eq!(enc.len(), 8);
        assert_eq!(minifs::bytes::u64_from_le(&enc, 0), x);
    }
    let enc = minifs::bytes::u16_to_le(0xbeef);
    assert_eq!(minifs::bytes::u16_from_le(&enc, 0), 0xbeef);
}
