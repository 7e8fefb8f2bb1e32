//! A block-structured filesystem over a fixed-geometry in-memory block device.
//!
//! The disk is a flat array of equally sized blocks, organised into four
//! regions: a superblock, a packed inode table, a data-block allocation
//! bitmap, and the data area.  Four layers expose the operations:
//!
//! * the block layer ([`block::BlockFS`]): layout validation, raw block
//!   access, and a first-fit bitmap allocator for data blocks;
//! * the inode layer ([`inode::InodeFS`]): packed on-disk inodes with an
//!   allocation / free lifecycle and truncation;
//! * the directory layer ([`dir::DirFS`]): fixed-size directory entries
//!   stored inside a directory inode's data blocks;
//! * the read/write layer ([`rw::RWInodeFS`]): byte-granular reads and
//!   append-capable writes across an inode's direct block list.
//!
//! Every operation is specified against a mathematical view of the disk:
//! the decoded superblock, the decoded inode table, the allocation bitmap
//! as a sequence of bits, and the raw data blocks.

pub mod bytes;
pub mod layout;
pub mod device;
pub mod disk;
pub mod block;
pub mod inode;
pub mod dir;
pub mod rw;
