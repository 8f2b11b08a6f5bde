//! The FAT32 extended BIOS parameter block: the first sector of the
//! partition, describing the filesystem geometry.

use vstd::prelude::*;
use crate::device::{BlockDevice, same_contents};
use crate::mbr::Error;
use crate::raw::{le16, le32, read_le16, read_le32, copy_range};

verus! {

/// The BIOS parameter block of a FAT32 partition, decoded field by field
/// from its 512-byte on-disk layout.
#[derive(Debug)]
pub struct BiosParameterBlock {
    pub bootcode_trampoline: [u8; 3],
    pub oem_id: [u8; 8],
    pub sector_bytes: u16,
    pub sectors_per_cluster: u8,
    pub reserved_sectors: u16,
    pub fat_count: u8,
    pub max_dirent_count: u16,
    pub logical_sectors_small: u16,
    pub media_descriptor_type: u8,
    pub sectors_per_fat_obsolete: u16,
    pub sectors_per_track: u16,
    pub heads: u16,
    pub hidden_sectors: u32,
    pub logical_sectors_large: u32,
    pub sectors_per_fat: u32,
    pub flags: u16,
    pub fat_version_number: u16,
    pub root_start_cluster: u32,
    pub fsinfo_sector: u16,
    pub backup_boot_sector: u16,
    pub drive_number: u8,
    pub signature: u8,
    pub volume_serial: u32,
    pub volume_label: [u8; 11],
    pub system_identifier: [u8; 8],
    pub bootcode: Vec<u8>,
    pub partition_signature: u16,
}

/// The decoded numeric fields of a BPB match the sector bytes at their
/// standard offsets.
pub open spec fn bpb_matches(b: BiosParameterBlock, s: Seq<u8>) -> bool {
    &&& b.sector_bytes == le16(s, 11)
    &&& b.sectors_per_cluster == s[13]
    &&& b.reserved_sectors == le16(s, 14)
    &&& b.fat_count == s[16]
    &&& b.max_dirent_count == le16(s, 17)
    &&& b.logical_sectors_small == le16(s, 19)
    &&& b.media_descriptor_type == s[21]
    &&& b.sectors_per_fat_obsolete == le16(s, 22)
    &&& b.sectors_per_track == le16(s, 24)
    &&& b.heads == le16(s, 26)
    &&& b.hidden_sectors == le32(s, 28)
    &&& b.logical_sectors_large == le32(s, 32)
    &&& b.sectors_per_fat == le32(s, 36)
    &&& b.flags == le16(s, 40)
    &&& b.fat_version_number == le16(s, 42)
    &&& b.root_start_cluster == le32(s, 44)
    &&& b.fsinfo_sector == le16(s, 48)
    &&& b.backup_boot_sector == le16(s, 50)
    &&& b.drive_number == s[64]
    &&& b.signature == s[66]
    &&& b.volume_serial == le32(s, 67)
    &&& b.partition_signature == le16(s, 510)
}

/// Whether the BPB sector carries the 0xAA55 magic at offset 510.
pub open spec fn spec_bpb_sig_ok(s: Seq<u8>) -> bool {
    le16(s, 510) == 0xAA55
}

impl BiosParameterBlock {
    /// Reads the FAT32 extended BIOS parameter block from sector `sector`
    /// of `device`. Fails with `BadSignature` if the sector's magic is
    /// wrong, and with `Io(e)` if the device read failed with `e`.
    pub fn from<D: BlockDevice>(device: &mut D, sector: u64) -> (r: Result<
        BiosParameterBlock,
        Error,
    >)
        requires
            old(device).inv(),
        ensures
            final(device).inv(),
            same_contents(final(device), old(device)),
            r matches Ok(bpb) ==> {
                &&& bpb_matches(bpb, old(device).spec_sector(sector))
                &&& spec_bpb_sig_ok(old(device).spec_sector(sector))
            },
            r matches Err(e) && e == Error::BadSignature ==> !spec_bpb_sig_ok(old(device).spec_sector(sector)),
            r matches Err(e) ==> e != Error::NotFound && !(e is UnknownBootIndicator),
    {
        proof {
            old(device).lemma_inv();
        }
        let mut buf: Vec<u8> = Vec::new();
        match device.read_sector(sector, &mut buf) {
            Ok(_) => {},
            Err(e) => {
                return Err(Error::Io(e));
            },
        }
        proof {
            assert(buf@ =~= old(device).spec_sector(sector));
        }
        let partition_signature = read_le16(&buf, 510);
        if partition_signature != 0xAA55 {
            return Err(Error::BadSignature);
        }
        Ok(
            BiosParameterBlock {
                bootcode_trampoline: [buf[0], buf[1], buf[2]],
                oem_id: [buf[3], buf[4], buf[5], buf[6], buf[7], buf[8], buf[9], buf[10]],
                sector_bytes: read_le16(&buf, 11),
                sectors_per_cluster: buf[13],
                reserved_sectors: read_le16(&buf, 14),
                fat_count: buf[16],
                max_dirent_count: read_le16(&buf, 17),
                logical_sectors_small: read_le16(&buf, 19),
                media_descriptor_type: buf[21],
                sectors_per_fat_obsolete: read_le16(&buf, 22),
                sectors_per_track: read_le16(&buf, 24),
                heads: read_le16(&buf, 26),
                hidden_sectors: read_le32(&buf, 28),
                logical_sectors_large: read_le32(&buf, 32),
                sectors_per_fat: read_le32(&buf, 36),
                flags: read_le16(&buf, 40),
                fat_version_number: read_le16(&buf, 42),
                root_start_cluster: read_le32(&buf, 44),
                fsinfo_sector: read_le16(&buf, 48),
                backup_boot_sector: read_le16(&buf, 50),
                drive_number: buf[64],
                signature: buf[66],
                volume_serial: read_le32(&buf, 67),
                volume_label: [
                    buf[71],
                    buf[72],
                    buf[73],
                    buf[74],
                    buf[75],
                    buf[76],
                    buf[77],
                    buf[78],
                    buf[79],
                    buf[80],
                    buf[81],
                ],
                system_identifier: [
                    buf[82],
                    buf[83],
                    buf[84],
                    buf[85],
                    buf[86],
                    buf[87],
                    buf[88],
                    buf[89],
                ],
                bootcode: copy_range(&buf, 90, 420),
                partition_signature,
            },
        )
    }
}

} // verus!
