//! End-to-end tests against in-memory FAT32 images.

use fat32::cache::{CachedDevice, Partition};
use fat32::cluster::Cluster;
use fat32::device::{BlockDevice, IoError, MemoryDevice};
use fat32::dir::DirEntry;
use fat32::entry::Entry;
use fat32::fat::{FatEntry, Status};
use fat32::file::File;
use fat32::mbr::{Error, MasterBootRecord};
use fat32::metadata::{Attributes, Date, Metadata, Time, Timestamp};
use fat32::vfat::VFat;

const SECTOR: usize = 512;
const TOTAL_LOGICAL: u16 = 34;

fn put_u16(s: &mut Vec<u8>, off: usize, v: u16) {
    s[off] = (v & 0xFF) as u8;
    s[off + 1] = (v >> 8) as u8;
}

fn put_u32(s: &mut Vec<u8>, off: usize, v: u32) {
    s[off] = (v & 0xFF) as u8;
    s[off + 1] = ((v >> 8) & 0xFF) as u8;
    s[off + 2] = ((v >> 16) & 0xFF) as u8;
    s[off + 3] = ((v >> 24) & 0xFF) as u8;
}

fn mbr_sector() -> Vec<u8> {
    let mut s = vec![0u8; SECTOR];
    s[446] = 0; // boot indicator
    s[446 + 4] = 0x0B; // partition type
    put_u32(&mut s, 446 + 8, 1); // start sector
    put_u32(&mut s, 446 + 12, TOTAL_LOGICAL as u32);
    s[510] = 0x55;
    s[511] = 0xAA;
    s
}

fn bpb_sector() -> Vec<u8> {
    let mut s = vec![0u8; SECTOR];
    put_u16(&mut s, 11, SECTOR as u16); // bytes per sector
    s[13] = 1; // sectors per cluster
    put_u16(&mut s, 14, 1); // reserved sectors
    s[16] = 1; // fat count
    put_u16(&mut s, 19, TOTAL_LOGICAL); // logical sectors (small)
    put_u32(&mut s, 36, 1); // sectors per fat
    put_u32(&mut s, 44, 2); // root cluster
    s[510] = 0x55;
    s[511] = 0xAA;
    s
}

const EOC: u32 = 0x0FFF_FFFF;

fn fat_sector(links: &[(u32, u32)]) -> Vec<u8> {
    let mut s = vec![0u8; SECTOR];
    for &(cluster, value) in links {
        put_u32(&mut s, (cluster * 4) as usize, value);
    }
    s
}

/// The FAT short-name checksum, computed independently of the library.
fn checksum83(name: &[u8; 8], ext: &[u8; 3]) -> u8 {
    let mut sum: u8 = 0;
    for &b in name.iter().chain(ext.iter()) {
        sum = sum.rotate_right(1).wrapping_add(b);
    }
    sum
}

fn reg_entry(
    name: &[u8; 8],
    ext: &[u8; 3],
    attr: u8,
    cluster: u32,
    size: u32,
    created_date: u16,
) -> Vec<u8> {
    let mut r = vec![0u8; 32];
    r[0..8].copy_from_slice(name);
    r[8..11].copy_from_slice(ext);
    r[11] = attr;
    put_u16(&mut r, 16, created_date);
    put_u16(&mut r, 20, (cluster >> 16) as u16);
    put_u16(&mut r, 26, (cluster & 0xFFFF) as u16);
    put_u32(&mut r, 28, size);
    r
}

/// One long-file-name slot: 1-based index `idx` (with 0x40 set on the
/// last-stored, highest-indexed slot), 13 UTF-16 units of the name.
fn lfn_slot(idx: u8, last: bool, ck: u8, units: &[u16; 13]) -> Vec<u8> {
    let mut r = vec![0u8; 32];
    r[0] = idx | if last { 0x40 } else { 0 };
    r[11] = 0x0F;
    r[12] = 0;
    r[13] = ck;
    for j in 0..5 {
        put_u16(&mut r, 1 + 2 * j, units[j]);
    }
    for j in 0..6 {
        put_u16(&mut r, 14 + 2 * j, units[5 + j]);
    }
    put_u16(&mut r, 26, 0);
    for j in 0..2 {
        put_u16(&mut r, 28 + 2 * j, units[11 + j]);
    }
    r
}

/// The slots of a whole long name, in on-disk order (highest index
/// first).
fn lfn_group(name: &str, ck: u8) -> Vec<Vec<u8>> {
    let mut units: Vec<u16> = name.encode_utf16().collect();
    units.push(0);
    while units.len() % 13 != 0 {
        units.push(0xFFFF);
    }
    let slots = units.len() / 13;
    let mut out = Vec::new();
    for i in (0..slots).rev() {
        let mut part = [0u16; 13];
        part.copy_from_slice(&units[i * 13..(i + 1) * 13]);
        out.push(lfn_slot((i + 1) as u8, i + 1 == slots, ck, &part));
    }
    out
}

fn dir_cluster(entries: &[Vec<u8>]) -> Vec<u8> {
    let mut s = Vec::new();
    for e in entries {
        s.extend_from_slice(e);
    }
    assert!(s.len() <= SECTOR);
    s.resize(SECTOR, 0);
    s
}

/// Builds the fixture image. Physical sector `n + 1` is logical sector
/// `n`; clusters start at logical sector 2, one sector per cluster.
fn build_image() -> Vec<Vec<u8>> {
    let mut sectors = vec![vec![0u8; SECTOR]; 1 + TOTAL_LOGICAL as usize];
    sectors[0] = mbr_sector();
    sectors[1] = bpb_sector();
    sectors[2] = fat_sector(&[
        (2, EOC),
        (4, EOC),
        (5, EOC),
        (6, EOC),
        (7, EOC),
        (8, EOC),
        (9, EOC),
        (10, EOC),
        (11, EOC),
        (12, 13),
        (13, 14),
        (14, EOC),
        (16, 2),
        (17, EOC),
    ]);

    let foo_name = *b"FOO     ";
    let foo_ext = *b"TXT";
    let long_stub_name = *b"AVERYL~1";
    let long_stub_ext = *b"TXT";
    let long_ck = checksum83(&long_stub_name, &long_stub_ext);
    let broken_stub_name = *b"BROKEN~1";
    let broken_stub_ext = *b"TXT";
    let broken_ck = checksum83(&broken_stub_name, &broken_stub_ext);

    let mut root: Vec<Vec<u8>> = Vec::new();
    root.push(reg_entry(&foo_name, &foo_ext, 0x20, 4, 6, 0));
    let mut deleted = reg_entry(b"GONE    ", b"TXT", 0x20, 15, 1, 0);
    deleted[0] = 0xE5;
    root.push(deleted);
    root.push(reg_entry(b"A       ", b"   ", 0x10, 5, 0, 0));
    root.push(reg_entry(b"SUB     ", b"   ", 0x10, 10, 0, 0));
    root.push(reg_entry(b"EMPTYD  ", b"   ", 0x10, 8, 0, 0));
    for slot in lfn_group("A very long filename.txt", long_ck) {
        root.push(slot);
    }
    root.push(reg_entry(&long_stub_name, &long_stub_ext, 0x20, 9, 5, 0));
    // same shape, but every slot's checksum disagrees with the stub
    for slot in lfn_group("Broken long name.txt", broken_ck.wrapping_add(1)) {
        root.push(slot);
    }
    root.push(reg_entry(&broken_stub_name, &broken_stub_ext, 0x20, 11, 3, 0));
    let emoji_stub_name = *b"PI~1    ";
    let emoji_stub_ext = *b"TXT";
    let emoji_ck = checksum83(&emoji_stub_name, &emoji_stub_ext);
    for slot in lfn_group("\u{3c0} \u{1F642}.txt", emoji_ck) {
        root.push(slot);
    }
    root.push(reg_entry(&emoji_stub_name, &emoji_stub_ext, 0x20, 17, 0, 0));
    root.push(reg_entry(b"LARGE   ", b"TXT", 0x20, 12, 1234, 0));
    sectors[3] = dir_cluster(&root); // cluster 2

    // cluster 4: FOO.TXT contents
    let mut foo = b"foobar".to_vec();
    foo.resize(SECTOR, 0);
    sectors[5] = foo;

    // cluster 5: directory A -> B
    sectors[6] = dir_cluster(&[reg_entry(b"B       ", b"   ", 0x10, 6, 0, 0)]);
    // cluster 6: directory B -> C.TXT, created 2010-05-17
    let date_2010_05_17: u16 = (30 << 9) | (5 << 5) | 17;
    sectors[7] = dir_cluster(&[reg_entry(b"C       ", b"TXT", 0x20, 7, 4, date_2010_05_17)]);
    // cluster 7: C.TXT contents
    let mut ctxt = b"abcd".to_vec();
    ctxt.resize(SECTOR, 0);
    sectors[8] = ctxt;

    // cluster 8: EMPTYD, a deleted entry then the end marker
    let mut gone = reg_entry(b"VANISHED", b"   ", 0x20, 15, 0, 0);
    gone[0] = 0xE5;
    sectors[9] = dir_cluster(&[gone]);

    // cluster 9: the long-named file's contents
    let mut long_data = b"hello".to_vec();
    long_data.resize(SECTOR, 0);
    sectors[10] = long_data;

    // cluster 10: SUB -> LEAF.TXT, plus a directory whose extension
    // field is (unusually) not space-padded
    sectors[11] = dir_cluster(&[
        reg_entry(b"LEAF    ", b"TXT", 0x20, 11, 3, 0),
        reg_entry(b"ODDDIR  ", b"EXT", 0x10, 8, 0, 0),
    ]);
    // cluster 11: LEAF.TXT contents (also the broken-name stub's cluster)
    let mut leaf = b"xyz".to_vec();
    leaf.resize(SECTOR, 0);
    sectors[12] = leaf;

    // clusters 12..14: LARGE.TXT, 1234 bytes of a ramp pattern
    let large: Vec<u8> = (0..1234u32).map(|i| (i * 7 % 251) as u8).collect();
    for (c, chunk) in large.chunks(SECTOR).enumerate() {
        let mut sec = chunk.to_vec();
        sec.resize(SECTOR, 0);
        sectors[13 + c] = sec;
    }
    sectors
}

fn mount() -> VFat<MemoryDevice> {
    let device = MemoryDevice::new(SECTOR as u64, build_image());
    VFat::from(device).unwrap()
}

fn large_pattern() -> Vec<u8> {
    (0..1234u32).map(|i| (i * 7 % 251) as u8).collect()
}

fn read_to_end(fs: &mut VFat<MemoryDevice>, f: &mut File) -> Vec<u8> {
    let mut out = Vec::new();
    loop {
        let mut buf = vec![0u8; 100];
        let n = f.read(fs, &mut buf).unwrap();
        if n == 0 {
            break;
        }
        out.extend_from_slice(&buf[0..n]);
    }
    out
}

fn list_names(fs: &mut VFat<MemoryDevice>) -> Vec<String> {
    let root = fs.root();
    let mut it = root.entries(fs).unwrap();
    let mut names = Vec::new();
    while let Some(e) = it.next() {
        names.push(e.name().to_string());
    }
    names
}

// ---------------------------------------------------------------------
// FAT entry classification
// ---------------------------------------------------------------------

#[test]
fn fat_status_classifies_by_table() {
    assert_eq!(FatEntry(0x0000_0000).status(), Status::Free);
    assert_eq!(FatEntry(0x0000_0001).status(), Status::Reserved);
    assert_eq!(FatEntry(0x0000_0002).status(), Status::Data(Cluster(2)));
    assert_eq!(FatEntry(0x0FFF_FFEF).status(), Status::Data(Cluster(0x0FFF_FFEF)));
    assert_eq!(FatEntry(0x0FFF_FFF0).status(), Status::Reserved);
    assert_eq!(FatEntry(0x0FFF_FFF6).status(), Status::Reserved);
    assert_eq!(FatEntry(0x0FFF_FFF7).status(), Status::Bad);
    assert_eq!(FatEntry(0x0FFF_FFF8).status(), Status::Eoc(0x0FFF_FFF8));
    assert_eq!(FatEntry(0x0FFF_FFFF).status(), Status::Eoc(0x0FFF_FFFF));
}

#[test]
fn fat_status_masks_high_bits() {
    // the reserved top four bits never change the classification
    assert_eq!(FatEntry(0xF000_0002).status(), Status::Data(Cluster(2)));
    assert_eq!(FatEntry(0xFFFF_FFFF).status(), Status::Eoc(0x0FFF_FFFF));
    assert_eq!(FatEntry(0xA000_0000).status(), Status::Free);
}

#[test]
fn cluster_from_masks_high_bits() {
    assert_eq!(Cluster::from(0xF000_0005).id(), 5);
    assert_eq!(Cluster::from(0x0000_0002).id(), 2);
    assert!(Cluster::from(2).has_next());
    assert!(!Cluster::from(0x0FFF_FFF8).has_next());
    assert_eq!(Cluster::from(7).data_offset(), 5);
}

// ---------------------------------------------------------------------
// Cache behaviour
// ---------------------------------------------------------------------

#[test]
fn cache_get_reads_device_once() {
    let device = MemoryDevice::new(SECTOR as u64, build_image());
    let mut cd = CachedDevice::new(device, Partition { start: 1, sector_size: SECTOR as u64 });
    let first = cd.get(0).unwrap();
    let reads_after_first = cd.device().read_count();
    let second = cd.get(0).unwrap();
    assert_eq!(cd.device().read_count(), reads_after_first);
    assert_eq!(first, second);
    // marking the sector dirty afterwards issues no further read either
    let third = cd.get_mut(0).unwrap();
    assert_eq!(cd.device().read_count(), reads_after_first);
    assert_eq!(first, third);
}

#[test]
fn cache_translates_logical_sectors() {
    let device = MemoryDevice::new(512, vec![vec![0u8; 512]; 64]);
    let cd = CachedDevice::new(device, Partition { start: 10, sector_size: 1024 });
    // below the partition: one physical sector, unscaled
    assert_eq!(cd.virtual_to_physical(5), (5, 1));
    // at the partition start
    assert_eq!(cd.virtual_to_physical(10), (10, 2));
    // two logical sectors in: 10 + 2 * factor
    assert_eq!(cd.virtual_to_physical(12), (14, 2));
}

#[test]
fn cache_equal_sector_sizes_identity() {
    let device = MemoryDevice::new(512, vec![vec![0u8; 512]; 16]);
    let cd = CachedDevice::new(device, Partition { start: 4, sector_size: 512 });
    assert_eq!(cd.virtual_to_physical(9), (9, 1));
}

// ---------------------------------------------------------------------
// MBR and BPB
// ---------------------------------------------------------------------

#[test]
fn mbr_parses_partition_table() {
    let mut device = MemoryDevice::new(SECTOR as u64, build_image());
    let mbr = MasterBootRecord::from(&mut device).unwrap();
    assert_eq!(mbr.part_entries[0].start_sector, 1);
    assert_eq!(mbr.part_entries[0].boot_indicator, 0);
    assert_eq!(mbr.part_entries[0].partition_type, 0x0B);
    assert_eq!(mbr.part_entries[1].start_sector, 0);
}

#[test]
fn mbr_rejects_bad_signature() {
    let mut image = build_image();
    image[0][510] = 0;
    let mut device = MemoryDevice::new(SECTOR as u64, image);
    assert_eq!(MasterBootRecord::from(&mut device).unwrap_err(), Error::BadSignature);
}

#[test]
fn mbr_rejects_unknown_boot_indicator() {
    let mut image = build_image();
    image[0][446 + 16] = 0x55; // second entry's boot indicator
    let mut device = MemoryDevice::new(SECTOR as u64, image);
    assert_eq!(
        MasterBootRecord::from(&mut device).unwrap_err(),
        Error::UnknownBootIndicator(1)
    );
}

#[test]
fn mount_reads_geometry() {
    let fs = mount();
    assert_eq!(fs.bytes_per_sector, 512);
    assert_eq!(fs.sectors_per_cluster, 1);
    assert_eq!(fs.fat_start_sector, 1);
    assert_eq!(fs.data_start_sector, 2);
    assert_eq!(fs.data_sectors, TOTAL_LOGICAL as u64 - 2);
    assert_eq!(fs.root_dir_cluster, Cluster(2));
}

#[test]
fn mount_rejects_bad_bpb_signature() {
    let mut image = build_image();
    image[1][511] = 0;
    let device = MemoryDevice::new(SECTOR as u64, image);
    match VFat::from(device) {
        Err(e) => assert_eq!(e, Error::BadSignature),
        Ok(_) => panic!("expected a bad-signature error"),
    }
}

#[test]
fn mount_rejects_zero_geometry() {
    let mut image = build_image();
    put_u16(&mut image[1], 11, 0); // zero bytes per sector
    let device = MemoryDevice::new(SECTOR as u64, image);
    match VFat::from(device) {
        Err(e) => assert_eq!(e, Error::BadSignature),
        Ok(_) => panic!("expected a bad-signature error"),
    }
}

// ---------------------------------------------------------------------
// Clusters and chains
// ---------------------------------------------------------------------

#[test]
fn read_cluster_fills_min_of_buf_and_cluster() {
    let mut fs = mount();
    let mut buf = vec![0u8; 6];
    let n = fs.read_cluster(Cluster::from(4), 0, &mut buf).unwrap();
    assert_eq!(n, 6);
    assert_eq!(&buf, b"foobar");
    // a buffer larger than the cluster stops at the cluster's end
    let mut big = vec![0xAAu8; 600];
    let n2 = fs.read_cluster(Cluster::from(4), 0, &mut big).unwrap();
    assert_eq!(n2, 512);
    assert_eq!(&big[0..6], b"foobar");
    assert_eq!(&big[512..], &[0xAAu8; 88][..]);
    // reading again from the same offset returns identical bytes
    let mut again = vec![0u8; 6];
    let n3 = fs.read_cluster(Cluster::from(4), 0, &mut again).unwrap();
    assert_eq!(n3, 6);
    assert_eq!(again, buf[0..6].to_vec());
    // an offset within the cluster skips its first bytes
    let mut tail = vec![0u8; 3];
    let n4 = fs.read_cluster(Cluster::from(4), 3, &mut tail).unwrap();
    assert_eq!(n4, 3);
    assert_eq!(&tail, b"bar");
}

#[test]
fn read_chain_appends_whole_clusters() {
    let mut fs = mount();
    let mut v = Vec::new();
    let n = fs.read_chain(Cluster::from(12), &mut v).unwrap();
    // three clusters, each rounded to a full cluster
    assert_eq!(n, 3 * 512);
    assert_eq!(v.len(), 3 * 512);
    assert_eq!(&v[0..1234], &large_pattern()[..]);
}

#[test]
fn fat_entry_decodes_raw_values() {
    let mut fs = mount();
    assert_eq!(fs.fat_entry(Cluster::from(4)).unwrap().status(), Status::Eoc(EOC));
    assert_eq!(fs.fat_entry(Cluster::from(15)).unwrap().status(), Status::Free);
    assert_eq!(
        fs.fat_entry(Cluster::from(16)).unwrap().status(),
        Status::Data(Cluster(2))
    );
    assert_eq!(
        fs.fat_entry(Cluster::from(12)).unwrap().status(),
        Status::Data(Cluster(13))
    );
}

// ---------------------------------------------------------------------
// Directory enumeration
// ---------------------------------------------------------------------

#[test]
fn root_lists_names_in_order_skipping_deleted() {
    let mut fs = mount();
    let names = list_names(&mut fs);
    assert_eq!(
        names,
        vec![
            "FOO.TXT".to_string(),
            "A".to_string(),
            "SUB".to_string(),
            "EMPTYD".to_string(),
            "A very long filename.txt".to_string(),
            "BROKEN~1.TXT".to_string(),
            "\u{3c0} \u{1F642}.txt".to_string(),
            "LARGE.TXT".to_string(),
        ]
    );
}

#[test]
fn entries_rejects_out_of_range_start_cluster() {
    let mut fs = mount();
    let metadata = Metadata {
        attribs: Attributes(0x10),
        created: Timestamp { time: Time(0), date: Date(0) },
        accessed: Date(0),
        modified: Timestamp { time: Time(0), date: Date(0) },
    };
    // data offset 38 lies past the 32 data sectors of the fixture
    let bogus = fat32::entry::Dir {
        start_cluster: Cluster(40),
        name: String::from("bogus"),
        metadata,
    };
    match bogus.entries(&mut fs) {
        Err(e) => assert_eq!(e, IoError::InvalidData),
        Ok(_) => panic!("an out-of-range start cluster must be rejected"),
    }
    assert_eq!(bogus.find(&mut fs, "x").unwrap_err(), IoError::InvalidData);
}

#[test]
fn mount_rejects_unaligned_sector_size() {
    let mut image = build_image();
    put_u16(&mut image[1], 11, 514); // not a multiple of the device's 512
    let device = MemoryDevice::new(SECTOR as u64, image);
    match VFat::from(device) {
        Err(e) => assert_eq!(e, Error::BadSignature),
        Ok(_) => panic!("expected a bad-signature error"),
    }
}

#[test]
fn deleted_then_end_yields_empty_listing() {
    let mut fs = mount();
    let root = fs.root();
    let d = root.find(&mut fs, "EMPTYD").unwrap();
    let d = d.into_dir().unwrap();
    let mut it = d.entries(&mut fs).unwrap();
    assert!(it.next().is_none());
}

#[test]
fn lfn_group_resolves_to_long_name() {
    let mut fs = mount();
    let root = fs.root();
    let e = root.find(&mut fs, "A very long filename.txt").unwrap();
    assert_eq!(e.name(), "A very long filename.txt");
    let mut f = e.into_file().unwrap();
    assert_eq!(f.size(), 5);
    assert_eq!(read_to_end(&mut fs, &mut f), b"hello".to_vec());
}

#[test]
fn lfn_checksum_mismatch_falls_back_to_short_name() {
    let mut fs = mount();
    let names = list_names(&mut fs);
    assert!(names.contains(&"BROKEN~1.TXT".to_string()));
    assert!(!names.iter().any(|n| n.contains("Broken long name")));
}

#[test]
fn find_is_case_insensitive() {
    let mut fs = mount();
    let root = fs.root();
    let upper = root.find(&mut fs, "FOO.TXT").unwrap();
    let lower = root.find(&mut fs, "foo.txt").unwrap();
    assert_eq!(upper.name(), lower.name());
    let fu = upper.into_file().unwrap();
    let fl = lower.into_file().unwrap();
    assert_eq!(fu.start_cluster, fl.start_cluster);
    assert_eq!(fu.size, fl.size);
}

#[test]
fn find_missing_name_is_not_found() {
    let mut fs = mount();
    let root = fs.root();
    assert_eq!(root.find(&mut fs, "NOPE").unwrap_err(), IoError::NotFound);
}

#[test]
fn classify_record_shapes() {
    // an LFN-shaped record: attribute 0x0F, type 0, cluster word 0
    let raw = lfn_slot(1, true, 0x42, &[0x41u16; 13]);
    match DirEntry::from(&raw, 0) {
        DirEntry::Lfn(l) => {
            assert_eq!(l.sequence_number, 0x41);
            assert_eq!(l.checksum, 0x42);
        }
        DirEntry::Regular(_) => panic!("expected an LFN record"),
    }
    let raw2 = reg_entry(b"FOO     ", b"TXT", 0x20, 4, 6, 0);
    match DirEntry::from(&raw2, 0) {
        DirEntry::Regular(r) => {
            assert_eq!(r.attribs, 0x20);
            assert_eq!(r.size, 6);
            assert_eq!(r.lo_cluster_part, 4);
        }
        DirEntry::Lfn(_) => panic!("expected a regular record"),
    }
}

// ---------------------------------------------------------------------
// Path resolution
// ---------------------------------------------------------------------

#[test]
fn open_root_returns_dir() {
    let mut fs = mount();
    let e = fs.open("/").unwrap();
    let d = e.as_dir().expect("root must be a directory");
    assert_eq!(d.start_cluster, Cluster(2));
    assert_eq!(d.name, "");
}

#[test]
fn open_empty_path_is_invalid() {
    let mut fs = mount();
    assert_eq!(fs.open("").unwrap_err(), IoError::InvalidInput);
}

#[test]
fn open_relative_path_is_invalid() {
    let mut fs = mount();
    assert_eq!(fs.open("a/b").unwrap_err(), IoError::InvalidInput);
}

#[test]
fn open_dot_components_are_invalid() {
    let mut fs = mount();
    assert_eq!(fs.open("/./a").unwrap_err(), IoError::InvalidInput);
    assert_eq!(fs.open("/a/../b").unwrap_err(), IoError::InvalidInput);
}

#[test]
fn open_file_as_last_component() {
    let mut fs = mount();
    let e = fs.open("/sub/leaf.txt").unwrap();
    let mut f = e.into_file().expect("leaf must be a file");
    assert_eq!(read_to_end(&mut fs, &mut f), b"xyz".to_vec());
}

#[test]
fn open_file_mid_path_is_invalid() {
    let mut fs = mount();
    assert_eq!(fs.open("/sub/leaf.txt/deeper").unwrap_err(), IoError::InvalidInput);
}

#[test]
fn open_missing_last_component_is_not_found() {
    let mut fs = mount();
    assert_eq!(fs.open("/missing").unwrap_err(), IoError::NotFound);
}

#[test]
fn open_missing_directory_is_invalid() {
    let mut fs = mount();
    assert_eq!(fs.open("/missing/file").unwrap_err(), IoError::InvalidInput);
}

#[test]
fn open_nested_file_and_created_date() {
    let mut fs = mount();
    let e = fs.open("/a/b/c.txt").unwrap();
    assert_eq!(e.name(), "C.TXT");
    let created: Timestamp = e.metadata().created();
    assert_eq!(created.year(), 2010);
    assert_eq!(created.month(), 5);
    assert_eq!(created.day(), 17);
    let mut f = e.into_file().unwrap();
    assert_eq!(read_to_end(&mut fs, &mut f), b"abcd".to_vec());
}

#[test]
fn open_collapses_repeated_separators() {
    let mut fs = mount();
    let e = fs.open("//a//b/").unwrap();
    assert!(e.as_dir().is_some());
}

// ---------------------------------------------------------------------
// File reads
// ---------------------------------------------------------------------

#[test]
fn read_to_end_matches_declared_size_and_contents() {
    let mut fs = mount();
    let e = fs.open("/LARGE.TXT").unwrap();
    let mut f = e.into_file().unwrap();
    let data = read_to_end(&mut fs, &mut f);
    assert_eq!(data.len() as u64, f.size());
    assert_eq!(data, large_pattern());
}

#[test]
fn read_in_one_large_buffer() {
    let mut fs = mount();
    let e = fs.open("/LARGE.TXT").unwrap();
    let mut f = e.into_file().unwrap();
    let mut buf = vec![0u8; 4096];
    let n = f.read(&mut fs, &mut buf).unwrap();
    assert_eq!(n, 1234);
    assert_eq!(&buf[0..1234], &large_pattern()[..]);
    // the file is exhausted now
    let n2 = f.read(&mut fs, &mut buf).unwrap();
    assert_eq!(n2, 0);
}

#[test]
fn read_empty_file_returns_zero() {
    let mut fs = mount();
    let metadata = Metadata {
        attribs: Attributes(0),
        created: Timestamp { time: Time(0), date: Date(0) },
        accessed: Date(0),
        modified: Timestamp { time: Time(0), date: Date(0) },
    };
    let mut f = File::new(Cluster::from(0), String::from("nil"), metadata, 0);
    let mut buf = vec![0u8; 8];
    assert_eq!(f.read(&mut fs, &mut buf).unwrap(), 0);
}

#[test]
fn lfn_name_may_hold_non_ascii_and_surrogate_pairs() {
    let mut fs = mount();
    let root = fs.root();
    let e = root.find(&mut fs, "\u{3c0} \u{1F642}.txt").unwrap();
    assert_eq!(e.name(), "\u{3c0} \u{1F642}.txt");
}

#[test]
fn short_name_checksum_matches_reference_algorithm() {
    let name = *b"AVERYL~1";
    let ext = *b"TXT";
    let raw = reg_entry(&name, &ext, 0x20, 0, 0, 0);
    match DirEntry::from(&raw, 0) {
        DirEntry::Regular(r) => assert_eq!(r.checksum(), checksum83(&name, &ext)),
        DirEntry::Lfn(_) => panic!("expected a regular record"),
    }
}

#[test]
fn directory_short_name_gets_no_extension_separator() {
    let mut fs = mount();
    let root = fs.root();
    let sub = root.find(&mut fs, "SUB").unwrap().into_dir().unwrap();
    // the name renders without a dot or extension, although the
    // extension field holds non-space bytes
    let odd = sub.find(&mut fs, "ODDDIR").unwrap();
    assert_eq!(odd.name(), "ODDDIR");
    assert!(odd.as_dir().is_some());
    assert_eq!(sub.find(&mut fs, "ODDDIR.EXT").unwrap_err(), IoError::NotFound);
}

#[test]
fn write_operations_are_refused() {
    let mut fs = mount();
    assert_eq!(fs.create_file("/new").unwrap_err(), IoError::Unsupported);
    match fs.create_dir("/newdir", false) {
        Err(e) => assert_eq!(e, IoError::Unsupported),
        Ok(_) => panic!("create_dir must be refused"),
    }
    assert_eq!(fs.rename("/a", "/b").unwrap_err(), IoError::Unsupported);
    assert_eq!(fs.remove("/a", false).unwrap_err(), IoError::Unsupported);
    let e = fs.open("/FOO.TXT").unwrap();
    let mut f = e.into_file().unwrap();
    assert_eq!(f.write(&mut fs, &vec![1u8]).unwrap_err(), IoError::Unsupported);
    assert_eq!(f.flush().unwrap_err(), IoError::Unsupported);
    assert_eq!(f.sync().unwrap_err(), IoError::Unsupported);
    assert_eq!(f.seek(0).unwrap_err(), IoError::Unsupported);
}

#[test]
fn memory_device_reads_sectors() {
    let mut device = MemoryDevice::new(SECTOR as u64, build_image());
    assert_eq!(device.sector_size(), 512);
    let mut buf = Vec::new();
    device.read_sector(0, &mut buf).unwrap();
    assert_eq!(buf.len(), 512);
    assert_eq!(buf[510], 0x55);
    assert_eq!(device.read_sector(100_000, &mut Vec::new()).unwrap_err(), IoError::NotFound);
}
