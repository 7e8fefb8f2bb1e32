use minifs::layout::{FType, SuperBlock};
use minifs::rw::{Buffer, RWInodeFS, RWInodeFSError};

fn rw_superblock() -> SuperBlock {
    SuperBlock {
        block_size: 300,
        nblocks: 12,
        ninodes: 6,
        inodestart: 1,
        ndatablocks: 6,
        bmapstart: 4,
        datastart: 5,
    }
}

/// Writing a multi-block file and reading it back recovers the bytes
/// exactly, allocating the needed data blocks on the way.
#[test]
fn write_then_read_roundtrip() {
    let sb = rw_superblock();
    let mut fs = RWInodeFS::mkfs(&sb).unwrap();
    let k = fs.i_alloc(FType::TFile).unwrap();
    let mut ino = fs.i_get(k).unwrap();

    // two and a half blocks of distinct bytes
    let n: u64 = 750;
    let mut src: Vec<u8> = Vec::new();
    for i in 0..n {
        src.push((i % 251) as u8);
    }
    let buf = Buffer::new(src.clone());
    fs.i_write(&mut ino, &buf, 0, n).unwrap();
    assert_eq!(ino.disk_node.size, n);
    assert_eq!(fs.i_get(k).unwrap(), ino);

    let mut out = Buffer::new_zero(n);
    assert_eq!(fs.i_read(&ino, &mut out, 0, n).unwrap(), n);
    assert_eq!(out.contents_as_ref(), &src);
}

/// Overwriting part of a file in place changes only those bytes and does
/// not grow the size.
#[test]
fn overwrite_in_place() {
    let sb = rw_superblock();
    let mut fs = RWInodeFS::mkfs(&sb).unwrap();
    let k = fs.i_alloc(FType::TFile).unwrap();
    let mut ino = fs.i_get(k).unwrap();

    let base = Buffer::new(vec![0xaa; 600]);
    fs.i_write(&mut ino, &base, 0, 600).unwrap();

    // overwrite four bytes straddling the block boundary at 300
    let patch = Buffer::new(vec![1, 2, 3, 4]);
    fs.i_write(&mut ino, &patch, 298, 4).unwrap();
    assert_eq!(ino.disk_node.size, 600);

    let mut out = Buffer::new_zero(600);
    assert_eq!(fs.i_read(&ino, &mut out, 0, 600).unwrap(), 600);
    let bytes = out.contents_as_ref();
    assert_eq!(bytes[297], 0xaa);
    assert_eq!(bytes[298], 1);
    assert_eq!(bytes[299], 2);
    assert_eq!(bytes[300], 3);
    assert_eq!(bytes[301], 4);
    assert_eq!(bytes[302], 0xaa);
}

/// Reading at the exact end of the content returns zero bytes; reading
/// or writing beyond it is refused; a long read is cut at the end.
#[test]
fn read_write_offset_rules() {
    let sb = rw_superblock();
    let mut fs = RWInodeFS::mkfs(&sb).unwrap();
    let k = fs.i_alloc(FType::TFile).unwrap();
    let mut ino = fs.i_get(k).unwrap();

    let buf = Buffer::new(vec![9u8; 100]);
    fs.i_write(&mut ino, &buf, 0, 100).unwrap();

    let mut out = Buffer::new_zero(100);
    assert_eq!(fs.i_read(&ino, &mut out, 100, 10).unwrap(), 0);
    assert!(matches!(
        fs.i_read(&ino, &mut out, 101, 1),
        Err(RWInodeFSError::OffsetOutsideOfInode)
    ));
    assert!(matches!(
        fs.i_write(&mut ino, &buf, 101, 1),
        Err(RWInodeFSError::OffsetOutsideOfInode)
    ));

    // a read past the end is cut short
    let mut out = Buffer::new_zero(100);
    assert_eq!(fs.i_read(&ino, &mut out, 40, 100).unwrap(), 60);
    assert_eq!(out.contents_as_ref()[59], 9);
    assert_eq!(out.contents_as_ref()[60], 0);
}

/// Appending through a write that starts inside the content grows the
/// size to the end of the written range.
#[test]
fn append_grows_size() {
    let sb = rw_superblock();
    let mut fs = RWInodeFS::mkfs(&sb).unwrap();
    let k = fs.i_alloc(FType::TFile).unwrap();
    let mut ino = fs.i_get(k).unwrap();

    let buf = Buffer::new(vec![5u8; 200]);
    fs.i_write(&mut ino, &buf, 0, 200).unwrap();
    assert_eq!(ino.disk_node.size, 200);

    let more = Buffer::new(vec![6u8; 400]);
    fs.i_write(&mut ino, &more, 150, 400).unwrap();
    assert_eq!(ino.disk_node.size, 550);

    let mut out = Buffer::new_zero(550);
    assert_eq!(fs.i_read(&ino, &mut out, 0, 550).unwrap(), 550);
    assert_eq!(out.contents_as_ref()[149], 5);
    assert_eq!(out.contents_as_ref()[150], 6);
    assert_eq!(out.contents_as_ref()[549], 6);
}

/// A reader's buffer that cannot hold the requested bytes is refused.
#[test]
fn read_into_short_buffer() {
    let sb = rw_superblock();
    let mut fs = RWInodeFS::mkfs(&sb).unwrap();
    let k = fs.i_alloc(FType::TFile).unwrap();
    let mut ino = fs.i_get(k).unwrap();
    let buf = Buffer::new(vec![3u8; 50]);
    fs.i_write(&mut ino, &buf, 0, 50).unwrap();

    let mut out = Buffer::new_zero(10);
    assert!(matches!(
        fs.i_read(&ino, &mut out, 0, 50),
        Err(RWInodeFSError::DeviceSystemError(
            minifs::device::DeviceError::OffsetOutOfRange
        ))
    ));
}
