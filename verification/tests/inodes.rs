use minifs::block::BlockFSError;
use minifs::inode::{InodeFS, InodeFSError};
use minifs::layout::{FType, Inode, SuperBlock};

fn multi_inode_superblock() -> SuperBlock {
    SuperBlock {
        block_size: 300,
        nblocks: 10,
        ninodes: 6,
        inodestart: 1,
        ndatablocks: 5,
        bmapstart: 4,
        datastart: 5,
    }
}

/// Inodes written across several inode blocks read back unchanged.
#[test]
fn multiple_blocks_test() {
    let sb = multi_inode_superblock();
    let mut my_fs = InodeFS::mkfs(&sb).unwrap();

    // allocate inodes 1 .. 5
    for i in 0..(sb.ninodes - 1) {
        assert_eq!(my_fs.i_alloc(FType::TFile).unwrap(), i + 1);
    }

    let size = 750u64;  // two and a half blocks of content
    let i1 = Inode::from_parts(1, FType::TFile, 1, size, &[2, 3, 4]).unwrap();
    let i2 = Inode::from_parts(2, FType::TFile, 1, size, &[2, 3, 4]).unwrap();
    let i3 = Inode::from_parts(3, FType::TFile, 1, size, &[2, 3, 4]).unwrap();
    let i4 = Inode::from_parts(4, FType::TFile, 1, size, &[2, 3, 4]).unwrap();

    my_fs.i_put(&i1).unwrap();
    my_fs.i_put(&i2).unwrap();
    my_fs.i_put(&i3).unwrap();
    my_fs.i_put(&i4).unwrap();

    assert_eq!(my_fs.i_get(1).unwrap(), i1);
    assert_eq!(my_fs.i_get(2).unwrap(), i2);
    assert_eq!(my_fs.i_get(3).unwrap(), i3);
    assert_eq!(my_fs.i_get(4).unwrap(), i4);
}

/// Allocation scans inodes 1 upward and fails once the table is full.
#[test]
fn inode_alloc_exhaustion() {
    let sb = multi_inode_superblock();
    let mut fs = InodeFS::mkfs(&sb).unwrap();
    assert_eq!(fs.i_alloc(FType::TFile).unwrap(), 1);
    assert_eq!(fs.i_alloc(FType::TFile).unwrap(), 2);
    assert_eq!(fs.i_alloc(FType::TFile).unwrap(), 3);
    assert_eq!(fs.i_alloc(FType::TFile).unwrap(), 4);
    assert_eq!(fs.i_alloc(FType::TFile).unwrap(), 5);
    assert!(matches!(
        fs.i_alloc(FType::TFile),
        Err(InodeFSError::InodeSystemError(BlockFSError::OutsideOfTheBoundariesError))
    ));
}

/// Freeing releases the inode's data blocks once the last link is gone,
/// and refuses an already free inode or an out-of-range index.
#[test]
fn inode_free_lifecycle() {
    let sb = multi_inode_superblock();
    let mut fs = InodeFS::mkfs(&sb).unwrap();
    let k = fs.i_alloc(FType::TFile).unwrap();
    assert_eq!(k, 1);

    // give the inode two data blocks of content
    let b0 = fs.b_alloc().unwrap();
    let b1 = fs.b_alloc().unwrap();
    let ino = Inode::from_parts(
        k,
        FType::TFile,
        0,
        450,
        &[b0 + sb.datastart, b1 + sb.datastart],
    )
    .unwrap();
    fs.i_put(&ino).unwrap();

    fs.i_free(k).unwrap();
    assert_eq!(fs.i_get(k).unwrap().disk_node.ft, FType::TFree);

    // the blocks went back to the allocator: first-fit reuses them
    assert_eq!(fs.b_alloc().unwrap(), b0);
    assert_eq!(fs.b_alloc().unwrap(), b1);

    assert!(matches!(fs.i_free(k), Err(InodeFSError::InodeAlreadyDeallocatedError)));
    assert!(matches!(
        fs.i_free(sb.ninodes),
        Err(InodeFSError::InodeSystemError(BlockFSError::OutsideOfTheBoundariesError))
    ));
}

/// Freeing an inode that still has links leaves it untouched.
#[test]
fn inode_free_keeps_linked_inode() {
    let sb = multi_inode_superblock();
    let mut fs = InodeFS::mkfs(&sb).unwrap();
    let k = fs.i_alloc(FType::TFile).unwrap();
    let ino = Inode::from_parts(k, FType::TFile, 2, 0, &[]).unwrap();
    fs.i_put(&ino).unwrap();
    fs.i_free(k).unwrap();
    assert_eq!(fs.i_get(k).unwrap(), ino);
}

/// Truncation frees the content blocks and zeroes size and pointers,
/// keeping type and link count.
#[test]
fn inode_trunc_releases_blocks() {
    let sb = multi_inode_superblock();
    let mut fs = InodeFS::mkfs(&sb).unwrap();
    let k = fs.i_alloc(FType::TFile).unwrap();
    let b0 = fs.b_alloc().unwrap();
    let mut ino = Inode::from_parts(k, FType::TFile, 1, 100, &[b0 + sb.datastart]).unwrap();
    fs.i_put(&ino).unwrap();

    fs.i_trunc(&mut ino).unwrap();
    assert_eq!(ino.disk_node.size, 0);
    assert_eq!(ino.disk_node.ft, FType::TFile);
    assert_eq!(ino.disk_node.nlink, 1);
    assert_eq!(fs.i_get(k).unwrap(), ino);
    assert_eq!(fs.b_alloc().unwrap(), b0);
}

/// An out-of-range inode number is rejected by get and put.
#[test]
fn inode_bounds_checked() {
    let sb = multi_inode_superblock();
    let mut fs = InodeFS::mkfs(&sb).unwrap();
    assert!(matches!(
        fs.i_get(sb.ninodes),
        Err(InodeFSError::InodeSystemError(BlockFSError::OutsideOfTheBoundariesError))
    ));
    let ino = Inode::from_parts(sb.ninodes, FType::TFile, 0, 0, &[]).unwrap();
    assert!(matches!(
        fs.i_put(&ino),
        Err(InodeFSError::InodeSystemError(BlockFSError::OutsideOfTheBoundariesError))
    ));
}
