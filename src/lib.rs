//! Block devices with capability-described sector sizes, a borrow tracker that hands out
//! non-overlapping sub-devices, an MBR partition table engine and a FAT12 filesystem engine.

pub mod disk;
pub mod fat;
pub mod fat12;
pub mod le;
pub mod mbr;
pub mod mem_disk;
pub mod wrappers;
