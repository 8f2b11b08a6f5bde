//! The master boot record: the first sector of the device, holding the
//! partition table.

use vstd::prelude::*;
use crate::device::{BlockDevice, IoError, same_contents};
use crate::raw::{le16, le32, read_le16, read_le32};

verus! {

/// A legacy cylinder/head/sector address. Nothing in this crate reads it;
/// the three bytes are carried through untouched.
#[derive(Copy, Clone, Debug)]
pub struct CHS {
    pub ignored_: [u8; 3],
}

/// One of the four entries of the partition table.
#[derive(Copy, Clone, Debug)]
pub struct PartitionEntry {
    pub boot_indicator: u8,
    pub start_chs: CHS,
    pub partition_type: u8,
    pub end_chs: CHS,
    pub start_sector: u32,
    pub total_sectors: u32,
}

/// The master boot record (MBR).
#[derive(Debug)]
pub struct MasterBootRecord {
    pub part_entries: [PartitionEntry; 4],
    pub bootsector_signature: u16,
}

/// The errors surfaced while mounting a filesystem.
#[derive(Copy, Clone, Debug, PartialEq, Eq, Structural)]
pub enum Error {
    /// There was an I/O error while reading an on-disk structure.
    Io(IoError),
    /// A partition entry contains an invalid or unknown boot indicator;
    /// the carried value is the 0-indexed entry number.
    UnknownBootIndicator(u8),
    /// A magic signature, or the geometry derived from the BPB, was
    /// invalid.
    BadSignature,
    /// The expected partition does not exist.
    NotFound,
}

/// The byte offset of partition-table entry `i` within the MBR sector.
pub open spec fn entry_off(i: int) -> int {
    446 + 16 * i
}

/// Whether the MBR sector carries the 0xAA55 magic at offset 510.
pub open spec fn spec_mbr_sig_ok(s: Seq<u8>) -> bool {
    le16(s, 510) == 0xAA55
}

/// The boot indicator of partition-table entry `i`.
pub open spec fn spec_entry_boot(s: Seq<u8>, i: int) -> u8 {
    s[entry_off(i)]
}

/// The partition type of partition-table entry `i`.
pub open spec fn spec_entry_type(s: Seq<u8>, i: int) -> u8 {
    s[entry_off(i) + 4]
}

/// The starting sector of partition-table entry `i`.
pub open spec fn spec_entry_start(s: Seq<u8>, i: int) -> u32 {
    le32(s, entry_off(i) + 8)
}

/// The total sector count of partition-table entry `i`.
pub open spec fn spec_entry_total(s: Seq<u8>, i: int) -> u32 {
    le32(s, entry_off(i) + 12)
}

/// A partition entry's decoded fields match the table bytes.
pub open spec fn entry_matches(e: PartitionEntry, s: Seq<u8>, i: int) -> bool {
    &&& e.boot_indicator == spec_entry_boot(s, i)
    &&& e.partition_type == spec_entry_type(s, i)
    &&& e.start_sector == spec_entry_start(s, i)
    &&& e.total_sectors == spec_entry_total(s, i)
}

/// Decodes partition-table entry `i` from the MBR sector bytes.
fn parse_entry(buf: &Vec<u8>, i: usize) -> (e: PartitionEntry)
    requires
        i < 4,
        512 <= buf@.len(),
    ensures
        entry_matches(e, buf@, i as int),
{
    let off: usize = 446 + 16 * i;
    PartitionEntry {
        boot_indicator: buf[off],
        start_chs: CHS { ignored_: [buf[off + 1], buf[off + 2], buf[off + 3]] },
        partition_type: buf[off + 4],
        end_chs: CHS { ignored_: [buf[off + 5], buf[off + 6], buf[off + 7]] },
        start_sector: read_le32(buf, off + 8),
        total_sectors: read_le32(buf, off + 12),
    }
}

impl MasterBootRecord {
    /// Reads and returns the master boot record from sector 0 of
    /// `device`.
    ///
    /// Fails with `BadSignature` if the magic at offset 510 is wrong,
    /// with `UnknownBootIndicator(n)` if entry `n` is the first whose
    /// boot indicator is neither 0 nor 0x80, and with `Io(e)` if the
    /// device read failed with `e`.
    #[verifier::loop_isolation(false)]
    pub fn from<D: BlockDevice>(device: &mut D) -> (r: Result<MasterBootRecord, Error>)
        requires
            old(device).inv(),
        ensures
            final(device).inv(),
            same_contents(final(device), old(device)),
            r matches Ok(mbr) ==> {
                &&& spec_mbr_sig_ok(old(device).spec_sector(0))
                &&& forall|i: int|
                    0 <= i < 4 ==> entry_matches(
                        #[trigger] mbr.part_entries@[i],
                        old(device).spec_sector(0),
                        i,
                    )
                &&& forall|i: int|
                    0 <= i < 4 ==> (spec_entry_boot(old(device).spec_sector(0), i) == 0
                        || spec_entry_boot(old(device).spec_sector(0), i) == 0x80)
            },
            r matches Err(e) && e == Error::BadSignature ==> !spec_mbr_sig_ok(old(device).spec_sector(0)),
            r matches Err(Error::UnknownBootIndicator(n)) ==> {
                &&& n < 4
                &&& spec_mbr_sig_ok(old(device).spec_sector(0))
                &&& spec_entry_boot(old(device).spec_sector(0), n as int) != 0
                &&& spec_entry_boot(old(device).spec_sector(0), n as int) != 0x80
                &&& forall|j: int|
                    0 <= j < n ==> (spec_entry_boot(old(device).spec_sector(0), j) == 0
                        || spec_entry_boot(old(device).spec_sector(0), j) == 0x80)
            },
            r matches Err(e) ==> e != Error::NotFound,
    {
        proof {
            old(device).lemma_inv();
        }
        let mut buf: Vec<u8> = Vec::new();
        match device.read_sector(0, &mut buf) {
            Ok(_) => {},
            Err(e) => {
                return Err(Error::Io(e));
            },
        }
        proof {
            assert(buf@ =~= old(device).spec_sector(0));
        }
        let signature = read_le16(&buf, 510);
        if signature != 0xAA55 {
            return Err(Error::BadSignature);
        }
        let mut i: usize = 0;
        while i < 4
            invariant
                i <= 4,
                buf@ == old(device).spec_sector(0),
                512 <= buf@.len(),
                forall|j: int|
                    0 <= j < i ==> (spec_entry_boot(buf@, j) == 0 || spec_entry_boot(buf@, j)
                        == 0x80),
            decreases 4 - i,
        {
            let boot = buf[446 + 16 * i];
            if boot != 0 && boot != 0x80 {
                proof {
                    assert(spec_entry_boot(buf@, i as int) == boot);
                }
                return Err(Error::UnknownBootIndicator(i as u8));
            }
            i = i + 1;
        }
        let entries = [
            parse_entry(&buf, 0),
            parse_entry(&buf, 1),
            parse_entry(&buf, 2),
            parse_entry(&buf, 3),
        ];
        Ok(MasterBootRecord { part_entries: entries, bootsector_signature: signature })
    }
}

} // verus!
