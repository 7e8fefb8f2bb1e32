use minifs::dir::{DirFS, DirFSError};
use minifs::layout::{FType, Inode, SuperBlock, DIRENTRY_SIZE};

fn dir_superblock() -> SuperBlock {
    SuperBlock {
        block_size: 250,
        nblocks: 10,
        ninodes: 6,
        inodestart: 1,
        ndatablocks: 5,
        bmapstart: 4,
        datastart: 5,
    }
}

/// Linking 36 entries spreads them over several freshly allocated blocks
/// at consecutive offsets; every name is then found at its offset, and the
/// target inode counts one link per entry.
#[test]
fn multiblock_allocations() {
    let sb = dir_superblock();
    let mut my_fs = DirFS::mkfs(&sb).unwrap();

    // an empty directory at inode 5
    let mut i1 = Inode::from_parts(5, FType::TDir, 0, 0, &[]).unwrap();
    my_fs.i_put(&i1).unwrap();

    // allocate inodes 2, 3, 4
    for i in 0..3 {
        assert_eq!(my_fs.i_alloc(FType::TFile).unwrap(), i + 2);
    }

    // fill the directory; four extra data blocks get allocated
    for i in 0..36u64 {
        assert_eq!(
            my_fs.dirlink(&mut i1, &format!("{}", i), 3).unwrap(),
            i * DIRENTRY_SIZE
        );
    }

    // every entry is found at the offset its link returned
    for i in 0..36u64 {
        assert_eq!(
            my_fs.dirlookup(&i1, &format!("{}", i)).unwrap().1,
            i * DIRENTRY_SIZE
        );
    }

    assert_eq!(my_fs.i_get(3).unwrap().disk_node.nlink, 36);
}

/// After formatting, every inode is free except the root, which is an
/// empty directory with one link.
#[test]
fn mkfs_writes_root_directory() {
    let sb = dir_superblock();
    let fs = DirFS::mkfs(&sb).unwrap();
    for k in 0..sb.ninodes {
        let ino = fs.i_get(k).unwrap();
        if k == 1 {
            assert_eq!(ino.disk_node.ft, FType::TDir);
            assert_eq!(ino.disk_node.nlink, 1);
            assert_eq!(ino.disk_node.size, 0);
        } else {
            assert_eq!(ino.disk_node.ft, FType::TFree);
        }
    }
}

/// A looked-up entry returns the target inode; a missing name, a
/// non-directory, a duplicate name and a free target are each refused
/// with their own error.
#[test]
fn dir_errors() {
    let sb = dir_superblock();
    let mut fs = DirFS::mkfs(&sb).unwrap();
    let mut root = fs.i_get(1).unwrap();
    let k = fs.i_alloc(FType::TFile).unwrap();

    assert!(matches!(
        fs.dirlookup(&root, "missing"),
        Err(DirFSError::SearchedDirectoryDoesntExist)
    ));

    let off = fs.dirlink(&mut root, "data", k).unwrap();
    assert_eq!(off, 0);
    let (found, foff) = fs.dirlookup(&root, "data").unwrap();
    assert_eq!(found.inum, k);
    assert_eq!(found, fs.i_get(k).unwrap());
    assert_eq!(foff, 0);

    assert!(matches!(
        fs.dirlink(&mut root, "data", k),
        Err(DirFSError::DirEntryNameAlreadyExists)
    ));

    // inode 3 was never allocated
    assert!(matches!(fs.dirlink(&mut root, "other", 3), Err(DirFSError::InodeNotInUse)));

    let plain = fs.i_get(k).unwrap();
    assert!(matches!(
        fs.dirlookup(&plain, "data"),
        Err(DirFSError::InodeNotDirectoryError)
    ));
    let mut plain = plain;
    assert!(matches!(
        fs.dirlink(&mut plain, "data", k),
        Err(DirFSError::InodeNotDirectoryError)
    ));
}

/// Linking a directory to itself does not change its link count; linking
/// another inode bumps that inode's count by one.
#[test]
fn dirlink_nlink_counts() {
    let sb = dir_superblock();
    let mut fs = DirFS::mkfs(&sb).unwrap();
    let mut root = fs.i_get(1).unwrap();
    fs.dirlink(&mut root, "self", 1).unwrap();
    assert_eq!(fs.i_get(1).unwrap().disk_node.nlink, 1);

    let k = fs.i_alloc(FType::TFile).unwrap();
    assert_eq!(fs.i_get(k).unwrap().disk_node.nlink, 0);
    fs.dirlink(&mut root, "one", k).unwrap();
    assert_eq!(fs.i_get(k).unwrap().disk_node.nlink, 1);
    fs.dirlink(&mut root, "two", k).unwrap();
    assert_eq!(fs.i_get(k).unwrap().disk_node.nlink, 2);
}

/// Entry names must be nonempty, short enough for the fixed field, and
/// ASCII alphanumeric; stored names read back exactly.
#[test]
fn entry_name_validation() {
    assert!(DirFS::new_de(2, "abc123").is_some());
    assert!(DirFS::new_de(2, "").is_none());
    assert!(DirFS::new_de(2, "a-b").is_none());
    assert!(DirFS::new_de(2, "with space").is_none());
    assert!(DirFS::new_de(2, "exactlythirtee").is_none());  // 14 characters
    assert!(DirFS::new_de(2, "thirteenchars").is_some());  // 13 characters

    let de = DirFS::new_de(7, "Zz9").unwrap();
    assert_eq!(de.inum, 7);
    assert_eq!(DirFS::get_name_str(&de), "Zz9");

    let mut de = de;
    assert!(DirFS::set_name_str(&mut de, "ok").is_some());
    assert_eq!(DirFS::get_name_str(&de), "ok");
    assert!(DirFS::set_name_str(&mut de, "not ok").is_none());
    assert_eq!(DirFS::get_name_str(&de), "ok");
}

/// A link under an invalid name is refused before anything is written.
#[test]
fn dirlink_rejects_invalid_name() {
    let sb = dir_superblock();
    let mut fs = DirFS::mkfs(&sb).unwrap();
    let mut root = fs.i_get(1).unwrap();
    let k = fs.i_alloc(FType::TFile).unwrap();
    assert!(matches!(
        fs.dirlink(&mut root, "bad name", k),
        Err(DirFSError::DirectorySystemError(
            minifs::inode::InodeFSError::InodeInitializationError
        ))
    ));
    assert!(matches!(
        fs.dirlookup(&root, "bad name"),
        Err(DirFSError::SearchedDirectoryDoesntExist)
    ));
}
