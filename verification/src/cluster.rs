//! Cluster indices: 28-bit allocation-unit numbers with the reserved high
//! four bits of the raw 32-bit value masked off.

use vstd::prelude::*;

verus! {

/// A cluster index. The raw value stored in a FAT entry or a directory
/// entry is 32 bits wide, but only the low 28 bits form the index; a
/// `Cluster` built through [`Cluster::from`] always carries the masked
/// value.
#[derive(PartialEq, Eq, PartialOrd, Ord, Copy, Clone, Hash, Debug, Structural)]
pub struct Cluster(pub u32);

impl Cluster {
    /// The index value this cluster carries.
    pub open spec fn spec_id(&self) -> u32 {
        self.0
    }

    /// A well-formed cluster index fits in 28 bits.
    pub open spec fn wf(&self) -> bool {
        self.0 <= 0x0FFF_FFFF
    }

    /// Builds a cluster index from a raw 32-bit on-disk value, masking off
    /// the reserved high four bits.
    pub fn from(raw_num: u32) -> (r: Cluster)
        ensures
            r == (Cluster((raw_num & 0x0FFF_FFFF) as u32)),
            r.wf(),
    {
        proof {
            assert(raw_num & 0x0FFF_FFFF <= 0x0FFF_FFFF) by (bit_vector);
        }
        Cluster(raw_num & 0x0FFF_FFFF)
    }

    /// The cluster's offset within the data region, in allocation units:
    /// data clusters are numbered from 2.
    pub fn data_offset(&self) -> (r: u64)
        requires
            2 <= self.0,
        ensures
            r == self.0 - 2,
    {
        self.0 as u64 - 2u64
    }

    /// The raw index value.
    pub fn id(&self) -> (r: u32)
        ensures
            r == self.0,
    {
        self.0
    }

    /// Whether this cluster index, read from a FAT entry, points at a
    /// follow-on cluster (as opposed to ending its chain). Only meaningful
    /// for indices that are data or end-of-chain values.
    pub fn has_next(&self) -> (r: bool)
        requires
            (2 <= self.0 && self.0 <= 0x0FFF_FFEF) || (0x0FFF_FFF8 <= self.0 && self.0
                <= 0x0FFF_FFFF),
        ensures
            r == (2 <= self.0 && self.0 <= 0x0FFF_FFEF),
    {
        self.0 >= 2 && self.0 <= 0x0FFF_FFEF
    }
}

} // verus!
