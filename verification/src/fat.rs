//! FAT entries and their decoded status.

use vstd::prelude::*;
use crate::cluster::Cluster;

verus! {

/// The meaning of one 32-bit FAT entry, classified from its masked 28-bit
/// value.
#[derive(Debug, PartialEq, Eq, Copy, Clone, Structural)]
pub enum Status {
    /// The FAT entry corresponds to an unused (free) cluster.
    Free,
    /// The FAT entry/cluster is reserved.
    Reserved,
    /// The FAT entry corresponds to a valid data cluster. The next cluster
    /// in the chain is the carried `Cluster`.
    Data(Cluster),
    /// The FAT entry corresponds to a bad (disk failed) cluster.
    Bad,
    /// The FAT entry corresponds to the last cluster in its chain; the
    /// carried value is the masked end-of-chain marker.
    Eoc(u32),
}

/// One raw 32-bit FAT entry as stored on disk.
#[derive(Debug, PartialEq, Eq, Copy, Clone, Structural)]
pub struct FatEntry(pub u32);

/// Classifies a raw 32-bit FAT value. Every raw value maps to exactly one
/// status: after masking to 28 bits, 0 is free, 1 and
/// `0x0FFF_FFF0..=0x0FFF_FFF6` are reserved, `2..=0x0FFF_FFEF` are data
/// clusters, `0x0FFF_FFF7` is bad, and `0x0FFF_FFF8..=0x0FFF_FFFF` marks
/// the end of a chain.
pub open spec fn spec_status(raw: u32) -> Status {
    let id = raw & 0x0FFF_FFFF;
    if id == 0 {
        Status::Free
    } else if id == 1 {
        Status::Reserved
    } else if id <= 0x0FFF_FFEF {
        Status::Data(Cluster(id))
    } else if id <= 0x0FFF_FFF6 {
        Status::Reserved
    } else if id == 0x0FFF_FFF7 {
        Status::Bad
    } else {
        Status::Eoc(id)
    }
}

impl FatEntry {
    /// Returns the status of this FAT entry.
    pub fn status(&self) -> (s: Status)
        ensures
            s == spec_status(self.0),
    {
        let cluster = Cluster::from(self.0);
        let id = cluster.id();
        if id == 0 {
            Status::Free
        } else if id == 1 {
            Status::Reserved
        } else if id <= 0x0FFF_FFEF {
            Status::Data(cluster)
        } else if id <= 0x0FFF_FFF6 {
            Status::Reserved
        } else if id == 0x0FFF_FFF7 {
            Status::Bad
        } else {
            Status::Eoc(id)
        }
    }
}

} // verus!
