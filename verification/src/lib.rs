//! A verified read-only FAT32 filesystem reader layered over an abstract
//! block device.
//!
//! The crate is organised bottom-up: `device` declares the block-device
//! contract, `cache` interposes a sector cache that translates logical
//! partition sectors to physical device sectors, `vfat` owns the
//! BPB-derived geometry and walks FAT cluster chains, `dir` parses 32-byte
//! directory records (including VFAT long-file-name reassembly), and path
//! resolution ties the layers together.

pub mod cache;
pub mod cluster;
pub mod device;
pub mod dir;
pub mod ebpb;
pub mod entry;
pub mod fat;
pub mod file;
pub mod mbr;
pub mod metadata;
pub mod raw;
pub mod vfat;
