//! The cluster/FAT layer: owns the cached sector store, knows the
//! BPB-derived geometry, translates clusters to logical sector runs,
//! decodes FAT entries and walks cluster chains.

use vstd::prelude::*;
use crate::cache::{CachedDevice, Partition};
use crate::ebpb::{BiosParameterBlock, spec_bpb_sig_ok};
use crate::mbr::{Error, MasterBootRecord, spec_entry_boot, spec_entry_start, spec_mbr_sig_ok};
use crate::cluster::Cluster;
use crate::device::{
    BlockDevice, IoError, concat_sectors, lemma_concat_sectors_len, lemma_concat_sectors_same,
    lemma_concat_sectors_slice,
};
use crate::dir::{eq_ignore_case, first_match, lemma_first_match, parse_dir};
use crate::entry::{Dir, Entry, EntryModel};
use crate::fat::{FatEntry, Status, spec_status};
use crate::metadata::{Attributes, Date, Metadata, Time, Timestamp};
use crate::raw::{le16, le32, read_le32, copy_into, append_bytes};
use crate::device::same_contents;

verus! {

/// A mounted FAT32 filesystem: the cached sector store plus the geometry
/// read from the BIOS parameter block, immutable after mount.
pub struct VFat<D: BlockDevice> {
    pub device: CachedDevice<D>,
    pub bytes_per_sector: u16,
    pub sectors_per_cluster: u8,
    pub sectors_per_fat: u32,
    pub fat_start_sector: u64,
    pub data_start_sector: u64,
    pub data_sectors: u64,
    pub root_dir_cluster: Cluster,
}

impl<D: BlockDevice> VFat<D> {
    /// The cached sector store the filesystem reads through.
    pub open spec fn spec_store(&self) -> CachedDevice<D> {
        self.device
    }

    /// The first logical sector of the file allocation table.
    pub open spec fn spec_fat_start(&self) -> u64 {
        self.fat_start_sector
    }

    /// The first logical sector of the data region.
    pub open spec fn spec_data_start(&self) -> u64 {
        self.data_start_sector
    }

    /// The number of logical sectors in the data region.
    pub open spec fn spec_data_sectors(&self) -> u64 {
        self.data_sectors
    }

    /// The number of logical sectors per file allocation table.
    pub open spec fn spec_sectors_per_fat(&self) -> u32 {
        self.sectors_per_fat
    }

    /// The cluster where the root directory starts.
    pub open spec fn spec_root(&self) -> Cluster {
        self.root_dir_cluster
    }

    /// The number of bytes in one cluster.
    pub open spec fn spec_cluster_bytes(&self) -> int {
        self.bytes_per_sector * self.sectors_per_cluster
    }

    /// Whether `c` names a cluster inside the data region. The upper
    /// bound compares the cluster's data offset against the data-region
    /// sector count, as the FAT-entry lookup does.
    pub open spec fn cluster_in_range(&self, c: Cluster) -> bool {
        &&& c.wf()
        &&& 2 <= c.0
        &&& c.0 - 2 < self.spec_data_sectors()
    }

    /// The first logical sector of cluster `c`.
    pub open spec fn spec_cluster_first_sector(&self, c: Cluster) -> int {
        self.spec_data_start() + (c.0 - 2) * self.sectors_per_cluster
    }

    /// All bytes of cluster `c`: its sectors read back to back.
    pub open spec fn cluster_data(&self, c: Cluster) -> Seq<u8> {
        concat_sectors(
            &self.spec_store(),
            self.spec_cluster_first_sector(c),
            self.sectors_per_cluster as nat,
        )
    }

    /// The logical sector holding the FAT entry of cluster id `id`.
    pub open spec fn spec_fat_sector(&self, id: u32) -> int {
        self.spec_fat_start() + (id * 4) / (self.bytes_per_sector as int)
    }

    /// The byte offset of the FAT entry of cluster id `id` within its
    /// sector.
    pub open spec fn spec_fat_offset(&self, id: u32) -> int {
        (id * 4) % (self.bytes_per_sector as int)
    }

    /// The raw 32-bit FAT entry recorded for cluster id `id`.
    pub open spec fn spec_fat_raw(&self, id: u32) -> u32 {
        le32(
            self.spec_store().sector_bytes(self.spec_fat_sector(id) as u64),
            self.spec_fat_offset(id),
        )
    }

    /// The decoded status of the FAT entry for cluster id `id`.
    pub open spec fn spec_fat_status(&self, id: u32) -> Status {
        spec_status(self.spec_fat_raw(id))
    }

    /// `s` is a complete cluster chain: every cluster lies in the data
    /// region, the FAT links each one to its successor, and the FAT marks
    /// the last one end-of-chain.
    pub open spec fn is_chain(&self, s: Seq<Cluster>) -> bool {
        &&& s.len() >= 1
        &&& forall|i: int| 0 <= i < s.len() ==> self.cluster_in_range(#[trigger] s[i])
        &&& forall|i: int|
            0 <= i < s.len() - 1 ==> self.spec_fat_status((#[trigger] s[i]).0) == Status::Data(
                s[i + 1],
            )
        &&& self.spec_fat_status(s[s.len() - 1].0) is Eoc
    }

    /// The bytes of a run of clusters, read back to back.
    pub open spec fn chain_data(&self, s: Seq<Cluster>) -> Seq<u8>
        decreases s.len(),
    {
        if s.len() == 0 {
            Seq::empty()
        } else {
            self.cluster_data(s[0]) + self.chain_data(s.drop_first())
        }
    }

    /// Well-formedness: the store is well formed and serves logical
    /// sectors of `bytes_per_sector` bytes, both geometry divisors are
    /// nonzero, FAT entries never straddle a sector boundary, and the
    /// geometry is small enough that no sector arithmetic overflows.
    pub open spec fn wf(&self) -> bool {
        &&& self.spec_store().wf()
        &&& 0 < self.bytes_per_sector
        &&& self.bytes_per_sector % 4 == 0
        &&& 0 < self.sectors_per_cluster
        &&& self.spec_store().spec_partition().sector_size == self.bytes_per_sector
        &&& self.spec_store().spec_partition().start <= u32::MAX
        &&& self.spec_data_sectors() <= u32::MAX
        &&& self.spec_data_start() <= 0x100_0000_0000
        &&& self.spec_fat_start() <= u16::MAX
    }

    /// Two filesystem states present the same mounted filesystem: equal
    /// geometry over a store with the same contents. Every filesystem
    /// operation leaves the state related to its old state this way: only
    /// the cache (and the device's internal bookkeeping) may differ.
    pub open spec fn same_fs(&self, other: &Self) -> bool {
        &&& self.bytes_per_sector == other.bytes_per_sector
        &&& self.sectors_per_cluster == other.sectors_per_cluster
        &&& self.spec_sectors_per_fat() == other.spec_sectors_per_fat()
        &&& self.spec_fat_start() == other.spec_fat_start()
        &&& self.spec_data_start() == other.spec_data_start()
        &&& self.spec_data_sectors() == other.spec_data_sectors()
        &&& self.spec_root() == other.spec_root()
        &&& self.spec_store().same_store(&other.spec_store())
    }

    /// Every logical sector number this filesystem ever touches is far
    /// below this bound.
    pub open spec fn sector_bound(&self) -> int {
        0x300_0000_0000
    }

    /// Any sector below the geometry bound can be addressed through the
    /// store without overflow.
    proof fn lemma_sector_ok(&self, s: u64)
        requires
            self.wf(),
            s <= self.sector_bound(),
        ensures
            self.spec_store().sector_ok(s),
    {
        self.spec_store().spec_device().lemma_inv();
        let ps = self.spec_store().spec_partition().sector_size as int;
        let ds = self.spec_store().spec_device().spec_sector_size() as int;
        let f = self.spec_store().spec_factor() as int;
        assert(f <= ps) by (nonlinear_arith)
            requires
                f == ps / ds,
                ds >= 1,
                ps >= 0,
        ;
        assert(s * f <= 0x300_0000_0000 * 0x10000) by (nonlinear_arith)
            requires
                0 <= s <= 0x300_0000_0000,
                0 <= f <= 0x10000,
        ;
    }

    /// Equal-geometry states with the same store contents agree on every
    /// cluster's bytes and every FAT entry.
    pub proof fn lemma_same_fs_model(&self, other: &Self)
        requires
            self.same_fs(other),
        ensures
            forall|c: Cluster| #[trigger] self.cluster_data(c) == other.cluster_data(c),
            forall|id: u32| #[trigger] self.spec_fat_raw(id) == other.spec_fat_raw(id),
            forall|s: Seq<Cluster>| #[trigger] self.chain_data(s) == other.chain_data(s),
            forall|s: Seq<Cluster>| #[trigger] self.is_chain(s) <==> other.is_chain(s),
    {
        self.spec_store().lemma_same_store_same_contents(&other.spec_store());
        assert forall|c: Cluster| #[trigger] self.cluster_data(c) == other.cluster_data(c) by {
            lemma_concat_sectors_same(
                &self.spec_store(),
                &other.spec_store(),
                self.spec_cluster_first_sector(c),
                self.sectors_per_cluster as nat,
            );
        }
        assert forall|id: u32| #[trigger] self.spec_fat_raw(id) == other.spec_fat_raw(id) by {
            self.spec_store().lemma_same_contents_sector_bytes(
                &other.spec_store(),
                self.spec_fat_sector(id) as u64,
            );
        }
        assert forall|s: Seq<Cluster>| #[trigger] self.chain_data(s) == other.chain_data(s) by {
            self.lemma_same_fs_chain_data(other, s);
        }
    }

    /// Helper induction for [`Self::lemma_same_fs_model`].
    proof fn lemma_same_fs_chain_data(&self, other: &Self, s: Seq<Cluster>)
        requires
            self.same_fs(other),
        ensures
            self.chain_data(s) == other.chain_data(s),
        decreases s.len(),
    {
        if s.len() > 0 {
            self.lemma_same_fs_chain_data(other, s.drop_first());
            self.spec_store().lemma_same_store_same_contents(&other.spec_store());
            lemma_concat_sectors_same(
                &self.spec_store(),
                &other.spec_store(),
                self.spec_cluster_first_sector(s[0]),
                self.sectors_per_cluster as nat,
            );
        }
    }

    /// A cluster's bytes: exactly one cluster's worth.
    pub proof fn lemma_cluster_data_len(&self, c: Cluster)
        requires
            self.wf(),
        ensures
            self.cluster_data(c).len() == self.spec_cluster_bytes(),
    {
        lemma_concat_sectors_len(
            &self.spec_store(),
            self.spec_cluster_first_sector(c),
            self.sectors_per_cluster as nat,
        );
        let spc = self.sectors_per_cluster as int;
        let bps = self.bytes_per_sector as int;
        assert(spc * bps == bps * spc) by (nonlinear_arith);
        assert(self.spec_store().spec_sector_size() == bps);
    }

    /// Translates a cluster and byte offset within it to the range of
    /// logical sectors holding it and the offset within the first sector.
    fn coords(&self, cluster: Cluster, offset: usize) -> (r: (u64, u64, usize))
        requires
            self.wf(),
            self.cluster_in_range(cluster),
            offset < self.spec_cluster_bytes(),
        ensures
            r.0 == self.spec_cluster_first_sector(cluster) + offset as int
                / self.bytes_per_sector as int,
            r.1 == self.spec_cluster_first_sector(cluster) + self.sectors_per_cluster,
            r.2 == offset as int % self.bytes_per_sector as int,
            self.spec_cluster_first_sector(cluster) <= r.0 < r.1,
            r.1 <= self.sector_bound(),
    {
        let c2 = cluster.data_offset();
        let spc = self.sectors_per_cluster as u64;
        proof {
            assert(c2 * spc <= 0xFFFF_FFFF * 0xFF) by (nonlinear_arith)
                requires
                    0 <= c2 <= 0xFFFF_FFFF,
                    0 <= spc <= 0xFF,
            ;
        }
        let cluster_start_sector = self.data_start_sector + c2 * spc;
        let bps = self.bytes_per_sector as usize;
        let skip_sectors = (offset / bps) as u64;
        proof {
            let off = offset as int;
            let b = bps as int;
            assert(0 <= off / b && off / b <= off && 0 <= off % b < b) by (nonlinear_arith)
                requires
                    b > 0,
                    off >= 0,
            ;
            assert(off < b * (self.sectors_per_cluster as int));
            assert(off / b < self.sectors_per_cluster) by (nonlinear_arith)
                requires
                    b > 0,
                    off < b * (self.sectors_per_cluster as int),
            ;
        }
        let start_sector = cluster_start_sector + skip_sectors;
        let end_sector = cluster_start_sector + spc;
        let sector_offset = offset % bps;
        (start_sector, end_sector, sector_offset)
    }

    /// Reads from byte `offset` within `cluster` into the front of
    /// `buf`, stopping at the end of the cluster or of the buffer: on
    /// success exactly `min(buf.len(), cluster_bytes - offset)` bytes are
    /// filled in and returned, and they are the cluster's bytes from
    /// `offset` on. The rest of the buffer, and its length, are
    /// untouched. When every sector of the cluster is already cached the
    /// call cannot fail; a device failure is returned verbatim, and the
    /// buffer may then hold a partial prefix.
    #[verifier::loop_isolation(false)]
    pub fn read_cluster(&mut self, cluster: Cluster, offset: usize, buf: &mut Vec<u8>) -> (r:
        Result<usize, IoError>)
        requires
            old(self).wf(),
            old(self).cluster_in_range(cluster),
            offset < old(self).spec_cluster_bytes(),
        ensures
            final(self).wf(),
            final(self).same_fs(old(self)),
            final(buf)@.len() == old(buf)@.len(),
            (forall|s2: u64|
                old(self).spec_cluster_first_sector(cluster) <= s2 < old(
                    self,
                ).spec_cluster_first_sector(cluster) + old(self).sectors_per_cluster
                    ==> #[trigger] old(self).spec_store().spec_cache().contains_key(s2)) ==> r
                is Ok,
            r matches Ok(n) ==> {
                let avail = old(self).spec_cluster_bytes() - offset;
                &&& n == if old(buf)@.len() <= avail {
                    old(buf)@.len() as int
                } else {
                    avail
                }
                &&& final(buf)@.subrange(0, n as int) == old(self).cluster_data(cluster).subrange(
                    offset as int,
                    offset + n,
                )
                &&& final(buf)@.subrange(n as int, final(buf)@.len() as int) == old(
                    buf,
                )@.subrange(n as int, old(buf)@.len() as int)
            },
    {
        let ghost orig = *self;
        let (start_sector, end_sector, start_offset) = self.coords(cluster, offset);
        let ghost first = self.spec_cluster_first_sector(cluster);
        let bps = self.bytes_per_sector as usize;
        let buf_len = buf.len();
        let mut bytes_read: usize = 0;
        let mut sector = start_sector;
        proof {
            vstd::arithmetic::div_mod::lemma_fundamental_div_mod(offset as int, bps as int);
            self.lemma_cluster_data_len(cluster);
        }
        while sector < end_sector
            invariant
                start_sector <= sector <= end_sector,
                self.wf(),
                self.same_fs(&orig),
                forall|s2: u64|
                    old(self).spec_store().spec_cache().contains_key(s2)
                        ==> #[trigger] self.spec_store().spec_cache().contains_key(s2),
                buf@.len() == buf_len,
                bytes_read <= buf_len,
                bytes_read as int == vstd::math::min(
                    buf_len as int,
                    if sector == start_sector {
                        0
                    } else {
                        (sector - first) * bps - offset
                    },
                ),
                offset + bytes_read <= orig.spec_cluster_bytes(),
                buf@.subrange(0, bytes_read as int) == orig.cluster_data(cluster).subrange(
                    offset as int,
                    offset + bytes_read,
                ),
                buf@.subrange(bytes_read as int, buf_len as int) == old(buf)@.subrange(
                    bytes_read as int,
                    buf_len as int,
                ),
            decreases end_sector - sector,
        {
            proof {
                self.lemma_sector_ok(sector);
            }
            let ghost pre = *self;
            let data = match self.device.get(sector) {
                Ok(d) => d,
                Err(e) => {
                    return Err(e);
                },
            };
            proof {
                (&pre.spec_store()).lemma_inv();
                assert(pre.spec_store().spec_sector(sector) == pre.spec_store().sector_bytes(
                    sector,
                ));
                assert(data@.len() == bps);
            }
            let from = if sector == start_sector {
                start_offset
            } else {
                0
            };
            let ghost k = (sector - first) as int;
            let ghost cd = orig.cluster_data(cluster);
            let ghost b = bps as int;
            proof {
                lemma_concat_sectors_slice(
                    &pre.spec_store(),
                    first,
                    pre.sectors_per_cluster as nat,
                    k as nat,
                );
                pre.lemma_same_fs_model(&orig);
                assert(pre.spec_store().spec_sector(sector) == pre.spec_store().sector_bytes(
                    sector,
                ));
                assert(pre.spec_store().spec_sector_size() == b);
                assert(pre.cluster_data(cluster) == cd);
                assert(pre.cluster_data(cluster).subrange(k * b, k * b + b)
                    == pre.spec_store().spec_sector((first + k) as u64));
                assert(data@ == cd.subrange(k * b, k * b + b));
                assert(0 <= from < b);
            }
            let ghost buf0 = buf@;
            let n = copy_into(buf, bytes_read, &data, from);
            proof {
                vstd::arithmetic::div_mod::lemma_fundamental_div_mod(offset as int, b);
                assert(0 <= k * b && k * b + b <= (orig.sectors_per_cluster as int) * b)
                    by (nonlinear_arith)
                    requires
                        0 <= k < orig.sectors_per_cluster as int,
                        b >= 0,
                ;
                assert((orig.sectors_per_cluster as int) * b == orig.spec_cluster_bytes())
                    by (nonlinear_arith)
                    requires
                        b == orig.bytes_per_sector as int,
                        orig.spec_cluster_bytes() == orig.bytes_per_sector
                            * orig.sectors_per_cluster,
                ;
                if sector == start_sector {
                    assert(k == offset as int / b && from == offset as int % b);
                    assert(k * b == b * k) by (nonlinear_arith);
                    assert(k * b + from == offset);
                } else {
                    assert(bytes_read == vstd::math::min(buf_len as int, k * b - offset));
                }
                if n == 0 {
                    assert forall|j: int| 0 <= j < buf_len implies buf@[j] == buf0[j] by {
                        if j < bytes_read {
                            assert(buf@.subrange(0, bytes_read as int)[j] == buf0.subrange(
                                0,
                                bytes_read as int,
                            )[j]);
                        } else {
                            assert(buf@.subrange(bytes_read as int, buf_len as int)[j
                                - bytes_read] == buf0.subrange(bytes_read as int, buf_len as int)[j
                                - bytes_read]);
                        }
                    }
                    assert(buf@ =~= buf0);
                } else {
                    // the window written starts exactly where the cluster
                    // bytes continue
                    assert(bytes_read < buf_len);
                    assert(k * b + from == offset + bytes_read);
                    assert(buf@.subrange(bytes_read as int, bytes_read + n) == data@.subrange(
                        from as int,
                        from + n,
                    ));
                    assert forall|j: int|
                        0 <= j < n implies #[trigger] data@.subrange(from as int, from + n)[j]
                        == cd.subrange(
                        offset + bytes_read,
                        offset + bytes_read + n,
                    )[j] by {
                        assert(data@[from + j] == cd.subrange(k * b, k * b + b)[from + j]);
                        assert(cd.subrange(k * b, k * b + b)[from + j] == cd[k * b + from + j]);
                    }
                    assert(data@.subrange(from as int, from + n) =~= cd.subrange(
                        offset + bytes_read,
                        offset + bytes_read + n,
                    ));
                }
                assert forall|j: int|
                    0 <= j < bytes_read + n implies #[trigger] buf@.subrange(0, bytes_read + n)[j]
                    == cd.subrange(offset as int, offset + bytes_read + n)[j] by {
                    if j < bytes_read {
                        assert(buf@.subrange(0, bytes_read as int)[j] == buf0.subrange(
                            0,
                            bytes_read as int,
                        )[j]);
                        assert(buf0.subrange(0, bytes_read as int)[j] == cd.subrange(
                            offset as int,
                            offset + bytes_read,
                        )[j]);
                    } else {
                        assert(buf@.subrange(bytes_read as int, bytes_read + n)[j - bytes_read]
                            == cd.subrange(offset + bytes_read, offset + bytes_read + n)[j
                            - bytes_read]);
                    }
                }
                assert(buf@.subrange(0, bytes_read + n) =~= cd.subrange(
                    offset as int,
                    offset + bytes_read + n,
                ));
                assert forall|j: int|
                    0 <= j < buf_len - (bytes_read + n) implies #[trigger] buf@.subrange(
                    bytes_read + n,
                    buf_len as int,
                )[j] == old(buf)@.subrange(bytes_read + n, buf_len as int)[j] by {
                    assert(buf@.subrange(bytes_read + n, buf_len as int)[j] == buf0.subrange(
                        bytes_read + n,
                        buf_len as int,
                    )[j]);
                    assert(buf0.subrange(bytes_read as int, buf_len as int)[j + n] == old(
                        buf,
                    )@.subrange(bytes_read as int, buf_len as int)[j + n]);
                }
                assert(buf@.subrange(bytes_read + n, buf_len as int) =~= old(buf)@.subrange(
                    bytes_read + n,
                    buf_len as int,
                ));
                assert((sector + 1 - first) * b == k * b + b) by (nonlinear_arith)
                    requires
                        k == sector - first,
                ;
                assert((sector + 1 - first) * b - offset <= orig.spec_cluster_bytes() - offset)
                    by (nonlinear_arith)
                    requires
                        sector + 1 <= end_sector,
                        end_sector - first == orig.sectors_per_cluster as int,
                        b == orig.bytes_per_sector as int,
                        b >= 0,
                        orig.spec_cluster_bytes() == orig.bytes_per_sector
                            * orig.sectors_per_cluster,
                ;
            }
            bytes_read = bytes_read + n;
            sector = sector + 1;
        }
        proof {
            assert((end_sector - first) * (bps as int) == orig.spec_cluster_bytes())
                by (nonlinear_arith)
                requires
                    end_sector - first == orig.sectors_per_cluster as int,
                    bps as int == orig.bytes_per_sector as int,
                    orig.spec_cluster_bytes() == orig.bytes_per_sector
                        * orig.sectors_per_cluster,
            ;
        }
        Ok(bytes_read)
    }

    /// Geometry no FAT32 volume can have, judged from the BPB sector's
    /// raw fields against a device whose sectors are `dev_sector_size`
    /// bytes: a zero or non-multiple-of-four sector size, zero sectors
    /// per cluster, a sector size below or not a multiple of the
    /// device's, or fewer total sectors than the reserved and FAT
    /// regions occupy.
    pub open spec fn spec_geometry_rejected(bpb_s: Seq<u8>, dev_sector_size: u64) -> bool {
        let bps = le16(bpb_s, 11);
        let logical = if le16(bpb_s, 19) != 0 {
            le16(bpb_s, 19) as int
        } else {
            le32(bpb_s, 32) as int
        };
        ||| bps == 0
        ||| bpb_s[13] == 0
        ||| bps % 4 != 0
        ||| (bps as u64) < dev_sector_size
        ||| (bps as int) % (dev_sector_size as int) != 0
        ||| logical < le16(bpb_s, 14) + bpb_s[16] * le32(bpb_s, 36)
    }

    /// Mounts the filesystem found in the first partition of `device`:
    /// reads the master boot record from sector 0, the BIOS parameter
    /// block from the partition's first sector, validates the geometry,
    /// and wraps the device in a fresh sector cache.
    ///
    /// On success every geometry field is the corresponding BPB field of
    /// the device's contents. Besides propagated MBR and BPB errors,
    /// `BadSignature` is returned for geometry no FAT32 volume can have:
    /// a zero (or non-multiple-of-four) sector size, zero sectors per
    /// cluster, a sector size smaller than or not a multiple of the
    /// device's, or fewer total sectors than reserved-plus-FAT sectors.
    pub fn from(device: D) -> (r: Result<VFat<D>, Error>)
        requires
            device.inv(),
        ensures
            r matches Ok(v) ==> {
                let mbr_s = device.spec_sector(0);
                let part_start = spec_entry_start(mbr_s, 0) as u64;
                let bpb_s = device.spec_sector(part_start);
                &&& v.wf()
                &&& spec_mbr_sig_ok(mbr_s)
                &&& spec_bpb_sig_ok(bpb_s)
                &&& v.spec_store().spec_partition() == (Partition {
                    start: part_start,
                    sector_size: le16(bpb_s, 11) as u64,
                })
                &&& same_contents(&v.spec_store().spec_device(), &device)
                &&& v.spec_store().spec_cache() == Map::<u64, crate::cache::CachedSector>::empty()
                &&& v.bytes_per_sector == le16(bpb_s, 11)
                &&& v.sectors_per_cluster == bpb_s[13]
                &&& v.fat_start_sector == le16(bpb_s, 14)
                &&& v.sectors_per_fat == le32(bpb_s, 36)
                &&& v.data_start_sector == le16(bpb_s, 14) + bpb_s[16] * le32(bpb_s, 36)
                &&& v.data_sectors == (if le16(bpb_s, 19) != 0 {
                    le16(bpb_s, 19) as int
                } else {
                    le32(bpb_s, 32) as int
                }) - v.data_start_sector
                &&& v.root_dir_cluster == (Cluster((le32(bpb_s, 44) & 0x0FFF_FFFF) as u32))
            },
            r matches Err(e) ==> e != Error::NotFound,
            r matches Err(e) && e == Error::BadSignature ==> {
                let mbr_s = device.spec_sector(0);
                let part_start = spec_entry_start(mbr_s, 0) as u64;
                let bpb_s = device.spec_sector(part_start);
                ||| !spec_mbr_sig_ok(mbr_s)
                ||| !spec_bpb_sig_ok(bpb_s)
                ||| Self::spec_geometry_rejected(bpb_s, device.spec_sector_size())
            },
            r matches Err(Error::UnknownBootIndicator(n)) ==> {
                let mbr_s = device.spec_sector(0);
                &&& n < 4
                &&& spec_mbr_sig_ok(mbr_s)
                &&& spec_entry_boot(mbr_s, n as int) != 0
                &&& spec_entry_boot(mbr_s, n as int) != 0x80
            },
    {
        let mut device = device;
        let mbr = match MasterBootRecord::from(&mut device) {
            Ok(m) => m,
            Err(e) => {
                return Err(e);
            },
        };
        let part_start = mbr.part_entries[0].start_sector as u64;
        let bpb = match BiosParameterBlock::from(&mut device, part_start) {
            Ok(b) => b,
            Err(e) => {
                return Err(e);
            },
        };
        let bps = bpb.sector_bytes;
        let spc = bpb.sectors_per_cluster;
        if bps == 0 || spc == 0 || bps % 4 != 0 {
            return Err(Error::BadSignature);
        }
        let dev_ss = device.sector_size();
        proof {
            device.lemma_inv();
        }
        let psize = bps as u64;
        if psize < dev_ss || psize % dev_ss != 0 {
            return Err(Error::BadSignature);
        }
        let reserved = bpb.reserved_sectors as u64;
        let spf = bpb.sectors_per_fat as u64;
        let fat_count = bpb.fat_count as u64;
        proof {
            assert(fat_count * spf <= 0xFF * 0xFFFF_FFFF) by (nonlinear_arith)
                requires
                    0 <= fat_count <= 0xFF,
                    0 <= spf <= 0xFFFF_FFFF,
            ;
        }
        let data_start_sector = reserved + fat_count * spf;
        let logical_sectors = if bpb.logical_sectors_small != 0 {
            bpb.logical_sectors_small as u64
        } else {
            bpb.logical_sectors_large as u64
        };
        if logical_sectors < data_start_sector {
            return Err(Error::BadSignature);
        }
        let data_sectors = logical_sectors - data_start_sector;
        let part = Partition { start: part_start, sector_size: psize };
        let cached = CachedDevice::new(device, part);
        Ok(
            VFat {
                device: cached,
                bytes_per_sector: bps,
                sectors_per_cluster: spc,
                sectors_per_fat: bpb.sectors_per_fat,
                fat_start_sector: reserved,
                data_start_sector,
                data_sectors,
                root_dir_cluster: Cluster::from(bpb.root_start_cluster),
            },
        )
    }

    /// Appending one cluster to a run appends exactly its bytes.
    proof fn lemma_chain_data_snoc(&self, s: Seq<Cluster>, c: Cluster)
        ensures
            self.chain_data(s.push(c)) == self.chain_data(s) + self.cluster_data(c),
        decreases s.len(),
    {
        if s.len() == 0 {
            assert(s.push(c)[0] == c);
            assert(s.push(c).drop_first() =~= Seq::<Cluster>::empty());
            assert(self.chain_data(s.push(c)) == self.cluster_data(c) + self.chain_data(
                Seq::<Cluster>::empty(),
            ));
            assert(self.chain_data(Seq::<Cluster>::empty()) == Seq::<u8>::empty());
            assert(self.chain_data(s) == Seq::<u8>::empty());
            assert(self.chain_data(s.push(c)) =~= self.chain_data(s) + self.cluster_data(c));
        } else {
            self.lemma_chain_data_snoc(s.drop_first(), c);
            assert(s.push(c).drop_first() =~= s.drop_first().push(c));
            assert(s.push(c)[0] == s[0]);
            assert(self.chain_data(s.push(c)) == self.cluster_data(s[0]) + self.chain_data(
                s.drop_first().push(c),
            ));
            assert(self.chain_data(s) == self.cluster_data(s[0]) + self.chain_data(
                s.drop_first(),
            ));
            assert(self.chain_data(s.push(c)) =~= self.chain_data(s) + self.cluster_data(c));
        }
    }

    /// A run of clusters holds one cluster's worth of bytes per cluster.
    pub proof fn lemma_chain_data_len(&self, s: Seq<Cluster>)
        requires
            self.wf(),
        ensures
            self.chain_data(s).len() == s.len() * self.spec_cluster_bytes(),
        decreases s.len(),
    {
        if s.len() == 0 {
            assert(s.len() * self.spec_cluster_bytes() == 0);
        } else {
            self.lemma_chain_data_len(s.drop_first());
            self.lemma_cluster_data_len(s[0]);
            assert((s.len() - 1) * self.spec_cluster_bytes() + self.spec_cluster_bytes() == s.len()
                * self.spec_cluster_bytes()) by (nonlinear_arith);
        }
    }

    /// Within a run of clusters, cluster `k` occupies exactly the bytes
    /// `k * cluster_bytes .. (k + 1) * cluster_bytes`.
    pub proof fn lemma_chain_data_slice(&self, s: Seq<Cluster>, k: int)
        requires
            self.wf(),
            0 <= k < s.len(),
        ensures
            self.chain_data(s).subrange(
                k * self.spec_cluster_bytes(),
                k * self.spec_cluster_bytes() + self.spec_cluster_bytes(),
            ) == self.cluster_data(s[k]),
        decreases s.len(),
    {
        let cb = self.spec_cluster_bytes();
        self.lemma_chain_data_len(s);
        self.lemma_chain_data_len(s.drop_first());
        self.lemma_cluster_data_len(s[0]);
        if k == 0 {
            assert(self.chain_data(s).subrange(0, cb) =~= self.cluster_data(s[0]));
        } else {
            self.lemma_chain_data_slice(s.drop_first(), k - 1);
            assert((k - 1) * cb == k * cb - cb) by (nonlinear_arith);
            assert(0 <= (k - 1) * cb && (k - 1) * cb + cb <= (s.len() - 1) * cb)
                by (nonlinear_arith)
                requires
                    1 <= k < s.len(),
                    cb >= 0,
            ;
            assert(self.chain_data(s).subrange(k * cb, k * cb + cb) =~= self.chain_data(
                s.drop_first(),
            ).subrange((k - 1) * cb, (k - 1) * cb + cb));
            assert(s.drop_first()[k - 1] == s[k]);
        }
    }

    /// The bytes of the file whose chain starts at `start` and whose
    /// directory entry declares `size` bytes: the chain's bytes cut down
    /// to the declared size.
    pub open spec fn file_data(&self, start: Cluster, size: u32) -> Seq<u8> {
        self.chain_data(self.spec_chain(start)).subrange(0, size as int)
    }

    /// Returns the 32-bit FAT entry recorded for `cluster`, reading (and
    /// caching) the FAT sector that holds it; when that sector is already
    /// cached the call cannot fail. The sector is obtained through the
    /// dirty-marking cache path, mirroring how a future write path would
    /// access it.
    pub fn fat_entry(&mut self, cluster: Cluster) -> (r: Result<FatEntry, IoError>)
        requires
            old(self).wf(),
            old(self).cluster_in_range(cluster),
        ensures
            final(self).wf(),
            final(self).same_fs(old(self)),
            old(self).spec_store().spec_cache().contains_key(
                old(self).spec_fat_sector(cluster.0) as u64,
            ) ==> r is Ok,
            r matches Ok(e) ==> e.0 == old(self).spec_fat_raw(cluster.0),
    {
        let id = cluster.id();
        let fat_offset = (id as u64) * 4;
        let bps = self.bytes_per_sector as u64;
        let entry_sector = self.fat_start_sector + fat_offset / bps;
        let entry_offset = (fat_offset % bps) as usize;
        proof {
            let q = fat_offset as int / bps as int;
            let rr = fat_offset as int % bps as int;
            vstd::arithmetic::div_mod::lemma_fundamental_div_mod(fat_offset as int, bps as int);
            assert(0 <= rr < bps && 0 <= q <= fat_offset) by (nonlinear_arith)
                requires
                    bps >= 1,
                    fat_offset >= 0,
                    q == fat_offset as int / bps as int,
                    rr == fat_offset as int % bps as int,
            ;
            let m = bps as int / 4;
            assert(bps == 4 * m) by (nonlinear_arith)
                requires
                    bps % 4 == 0,
                    m == bps as int / 4,
                    bps >= 0,
            ;
            assert(rr == 4 * (id - q * m)) by (nonlinear_arith)
                requires
                    4 * id == q * (bps as int) + rr,
                    bps == 4 * m,
                    fat_offset == 4 * id,
            ;
            assert(rr + 4 <= bps) by (nonlinear_arith)
                requires
                    rr == 4 * (id - q * m),
                    rr < 4 * m,
                    bps == 4 * m,
            ;
            self.lemma_sector_ok(entry_sector);
        }
        let ghost pre = *self;
        let data = match self.device.get_mut(entry_sector) {
            Ok(d) => d,
            Err(e) => {
                return Err(e);
            },
        };
        proof {
            (&pre.spec_store()).lemma_inv();
            assert(pre.spec_store().spec_sector(entry_sector) == pre.spec_store().sector_bytes(
                entry_sector,
            ));
            assert(data@.len() == bps);
        }
        Ok(FatEntry(read_le32(&data, entry_offset)))
    }

    /// Appends every byte of the cluster chain starting at `start` to
    /// `buf`, following FAT entries until the end-of-chain marker. On
    /// success the appended bytes are exactly the chain's clusters back
    /// to back, and the returned count is the chain length times the
    /// cluster size. A `Reserved`, `Free` or `Bad` cluster mid-chain, a
    /// link leaving the data region, or a chain that cannot terminate is
    /// reported as `InvalidData`; device errors are returned verbatim.
    #[verifier::loop_isolation(false)]
    pub fn read_chain(&mut self, start: Cluster, buf: &mut Vec<u8>) -> (r: Result<usize, IoError>)
        requires
            old(self).wf(),
            old(self).cluster_in_range(start),
        ensures
            final(self).wf(),
            final(self).same_fs(old(self)),
            r matches Ok(n) ==> exists|s: Seq<Cluster>|
                {
                    &&& old(self).is_chain(s)
                    &&& s[0] == start
                    &&& n == s.len() * old(self).spec_cluster_bytes()
                    &&& final(buf)@ == old(buf)@ + old(self).chain_data(s)
                },
    {
        let ghost orig = *self;
        let bps_us = self.bytes_per_sector as usize;
        let spc_us = self.sectors_per_cluster as usize;
        proof {
            assert(1 <= bps_us * spc_us <= 0xFFFF * 0xFF) by (nonlinear_arith)
                requires
                    1 <= bps_us <= 0xFFFF,
                    1 <= spc_us <= 0xFF,
            ;
        }
        let cluster_bytes = bps_us * spc_us;
        let mut curr = start;
        let mut bytes_read: usize = 0;
        let mut steps: u64 = 0;
        let limit: u64 = 0x1000_0000;
        let ghost mut visited: Seq<Cluster> = Seq::empty();
        loop
            invariant
                self.wf(),
                self.same_fs(&orig),
                orig.cluster_in_range(curr),
                steps <= limit,
                visited.len() == steps,
                forall|i: int| 0 <= i < visited.len() ==> orig.cluster_in_range(#[trigger] visited[i]),
                forall|i: int|
                    0 <= i < visited.len() - 1 ==> orig.spec_fat_status((#[trigger] visited[i]).0)
                        == Status::Data(visited[i + 1]),
                visited.len() > 0 ==> orig.spec_fat_status(visited[visited.len() - 1].0)
                    == Status::Data(curr),
                visited.len() == 0 ==> curr == start,
                visited.len() > 0 ==> visited[0] == start,
                buf@ == old(buf)@ + orig.chain_data(visited),
                bytes_read == visited.len() * orig.spec_cluster_bytes(),
            decreases limit - steps,
        {
            if steps >= limit {
                // a FAT32 volume has fewer clusters than this: the chain
                // must have a cycle
                return Err(IoError::InvalidData);
            }
            let ghost pre = *self;
            let entry = match self.fat_entry(curr) {
                Ok(e) => e,
                Err(e) => {
                    return Err(e);
                },
            };
            let next = match entry.status() {
                Status::Data(c) => {
                    if c.id() < 2 || (c.id() - 2) as u64 >= self.data_sectors {
                        // the FAT points outside the data region
                        return Err(IoError::InvalidData);
                    }
                    Some(c)
                },
                Status::Eoc(_) => None,
                Status::Reserved => {
                    return Err(IoError::InvalidData);
                },
                Status::Free => {
                    return Err(IoError::InvalidData);
                },
                Status::Bad => {
                    return Err(IoError::InvalidData);
                },
            };
            let mut tmp: Vec<u8> = vec![0u8; cluster_bytes];
            let ghost pre2 = *self;
            let n = match self.read_cluster(curr, 0, &mut tmp) {
                Ok(n) => n,
                Err(e) => {
                    return Err(e);
                },
            };
            proof {
                pre2.lemma_same_fs_model(&orig);
                assert(n == cluster_bytes);
                assert(tmp@.subrange(0, n as int) =~= tmp@);
                orig.lemma_cluster_data_len(curr);
                assert(orig.cluster_data(curr).subrange(0, n as int) =~= orig.cluster_data(
                    curr,
                ));
                assert(tmp@ == orig.cluster_data(curr));
            }
            let new_total = match bytes_read.checked_add(n) {
                Some(t) => t,
                None => {
                    // the chain's byte count no longer fits in memory
                    return Err(IoError::InvalidData);
                },
            };
            append_bytes(buf, &tmp);
            bytes_read = new_total;
            steps = steps + 1;
            proof {
                orig.lemma_chain_data_snoc(visited, curr);
                pre.lemma_same_fs_model(&orig);
                assert(orig.spec_fat_status(curr.0) == spec_status(entry.0));
                visited = visited.push(curr);
                assert(visited[visited.len() - 1] == curr);
                assert((visited.len() - 1) * orig.spec_cluster_bytes() + orig.spec_cluster_bytes()
                    == visited.len() * orig.spec_cluster_bytes()) by (nonlinear_arith);
            }
            match next {
                Some(c) => {
                    curr = c;
                },
                None => {
                    proof {
                        assert(orig.is_chain(visited));
                        assert(buf@ == old(buf)@ + orig.chain_data(visited));
                    }
                    return Ok(bytes_read);
                },
            }
        }
    }
}

// ---------------------------------------------------------------------
// Paths
// ---------------------------------------------------------------------
/// The number of characters of `s` before the first `/` separator (or
/// all of them).
pub open spec fn comp_len(s: Seq<char>) -> nat
    decreases s.len(),
{
    if s.len() == 0 {
        0
    } else if s[0] == '/' {
        0
    } else {
        (1 + comp_len(s.drop_first())) as nat
    }
}

proof fn lemma_comp_len(s: Seq<char>)
    ensures
        0 <= comp_len(s) <= s.len(),
        forall|i: int| 0 <= i < comp_len(s) ==> s[i] != '/',
        comp_len(s) < s.len() ==> s[comp_len(s) as int] == '/',
    decreases s.len(),
{
    if s.len() > 0 && s[0] != '/' {
        lemma_comp_len(s.drop_first());
        assert forall|i: int| 0 <= i < comp_len(s) implies s[i] != '/' by {
            if i > 0 {
                assert(s.drop_first()[i - 1] == s[i]);
            }
        }
        if comp_len(s) < s.len() {
            assert(s.drop_first()[comp_len(s) - 1] == s[comp_len(s) as int]);
        }
    }
}

/// The path's components: maximal separator-free runs, with empty runs
/// collapsed.
pub open spec fn split_chars(s: Seq<char>) -> Seq<Seq<char>>
    decreases s.len(),
    via split_chars_decreases
{
    if s.len() == 0 {
        Seq::empty()
    } else if s[0] == '/' {
        split_chars(s.drop_first())
    } else {
        seq![s.subrange(0, comp_len(s) as int)] + split_chars(s.skip(comp_len(s) as int))
    }
}

#[via_fn]
proof fn split_chars_decreases(s: Seq<char>) {
    if s.len() > 0 && s[0] != '/' {
        lemma_comp_len(s);
    }
}

/// A path component the resolver accepts: anything but the `.` and `..`
/// pseudo-components.
pub open spec fn valid_comp(c: Seq<char>) -> bool {
    c != seq!['.'] && c != seq!['.', '.']
}

/// An acceptable path: absolute, with only normal components.
pub open spec fn spec_path_ok(p: Seq<char>) -> bool {
    &&& p.len() >= 1
    &&& p[0] == '/'
    &&& forall|j: int| 0 <= j < split_chars(p).len() ==> valid_comp(#[trigger] split_chars(p)[j])
}

/// Splits a path into its components: `None` exactly when the path is
/// not absolute or holds a `.` or `..` component.
#[verifier::loop_isolation(false)]
fn split_path(path: &str) -> (r: Option<Vec<String>>)
    ensures
        r is Some <==> spec_path_ok(path@),
        r matches Some(v) ==> v@.map_values(|c: String| c@) == split_chars(path@),
{
    let n = path.unicode_len();
    if n == 0 {
        return None;
    }
    if path.get_char(0) != '/' {
        return None;
    }
    let mut comps: Vec<String> = Vec::new();
    let mut i: usize = 0;
    proof {
        assert(path@.skip(0) =~= path@);
        assert(comps@.map_values(|c: String| c@) =~= Seq::<Seq<char>>::empty());
    }
    while i < n
        invariant
            i <= n,
            split_chars(path@) == comps@.map_values(|c: String| c@) + split_chars(
                path@.skip(i as int),
            ),
            forall|j: int|
                0 <= j < comps@.len() ==> valid_comp((#[trigger] comps@[j])@),
        decreases n - i,
    {
        if path.get_char(i) == '/' {
            proof {
                assert(path@.skip(i as int).drop_first() =~= path@.skip(i + 1));
            }
            i = i + 1;
        } else {
            let ghost tail = path@.skip(i as int);
            let start = i;
            let mut comp = String::new();
            proof {
                assert(comp@ =~= path@.subrange(start as int, i as int));
            }
            while i < n && path.get_char(i) != '/'
                invariant
                    start <= i <= n,
                    comp@ == path@.subrange(start as int, i as int),
                    forall|k: int| start <= k < i ==> path@[k] != '/',
                decreases n - i,
            {
                crate::dir::push_char(&mut comp, path.get_char(i));
                proof {
                    assert(comp@ =~= path@.subrange(start as int, i + 1));
                }
                i = i + 1;
            }
            proof {
                lemma_comp_len(tail);
                assert forall|k: int| 0 <= k < i - start implies tail[k] != '/' by {
                    assert(tail[k] == path@[start + k]);
                }
                if comp_len(tail) > i - start {
                    assert(tail[i - start] != '/');
                    if i < n {
                        assert(tail[i - start] == path@[i as int]);
                    }
                    assert(false);
                }
                if comp_len(tail) < i - start {
                    assert(path@[start + comp_len(tail)] != '/');
                    assert(tail[comp_len(tail) as int] == path@[start + comp_len(tail)]);
                    assert(false);
                }
                assert(comp_len(tail) == i - start);
                assert(comp@ =~= tail.subrange(0, comp_len(tail) as int));
                assert(tail.skip(comp_len(tail) as int) =~= path@.skip(i as int));
            }
            let cn = comp.unicode_len();
            if cn == 1 && comp.get_char(0) == '.' {
                proof {
                    assert(comp@ =~= seq!['.']);
                    assert(split_chars(path@)[comps@.len() as int] == comp@);
                }
                return None;
            }
            if cn == 2 && comp.get_char(0) == '.' && comp.get_char(1) == '.' {
                proof {
                    assert(comp@ =~= seq!['.', '.']);
                    assert(split_chars(path@)[comps@.len() as int] == comp@);
                }
                return None;
            }
            let ghost comps0 = comps@;
            comps.push(comp);
            proof {
                assert(comps@.map_values(|c: String| c@) =~= comps0.map_values(
                    |c: String| c@,
                ).push(comp@));
                assert(comps0.map_values(|c: String| c@) + split_chars(tail)
                    =~= comps@.map_values(|c: String| c@) + split_chars(path@.skip(i as int)));
            }
        }
    }
    proof {
        assert(path@.skip(n as int) =~= Seq::<char>::empty());
        assert(split_chars(path@) =~= comps@.map_values(|c: String| c@));
    }
    Some(comps)
}

// ---------------------------------------------------------------------
// Path resolution
// ---------------------------------------------------------------------
/// What resolving a path against the filesystem model comes to.
pub enum Resolution {
    /// The path names this entry.
    Found(EntryModel),
    /// The last component does not exist in its directory.
    Missing,
    /// An intermediate component does not exist.
    MissingDir,
    /// An intermediate component names a file.
    NotADirectory,
}

impl<D: BlockDevice> VFat<D> {
    /// Some complete chain starts at `start`.
    pub open spec fn has_chain(&self, start: Cluster) -> bool {
        exists|s: Seq<Cluster>| #[trigger] self.is_chain(s) && s[0] == start
    }

    /// The chain starting at `start` (unique when one exists at all).
    pub open spec fn spec_chain(&self, start: Cluster) -> Seq<Cluster> {
        choose|s: Seq<Cluster>| #[trigger] self.is_chain(s) && s[0] == start
    }

    /// The entries of the directory whose chain starts at `start`.
    pub open spec fn dir_listing(&self, start: Cluster) -> Seq<EntryModel> {
        parse_dir(self.chain_data(self.spec_chain(start)))
    }

    /// The synthetic model of the root directory: empty name, zeroed
    /// metadata, the root cluster recorded at mount.
    pub open spec fn root_model(&self) -> EntryModel {
        EntryModel {
            is_dir: true,
            name: Seq::empty(),
            start: self.spec_root(),
            metadata: Metadata {
                attribs: Attributes(0),
                created: Timestamp { time: Time(0), date: Date(0) },
                accessed: Date(0),
                modified: Timestamp { time: Time(0), date: Date(0) },
            },
            size: 0,
        }
    }

    /// Resolution of the remaining components against the entry `cur`:
    /// look the first component up case-insensitively in `cur`'s
    /// listing, descend on a directory, and classify every way the walk
    /// can end.
    pub open spec fn spec_resolve(&self, cur: EntryModel, comps: Seq<Seq<char>>) -> Resolution
        decreases comps.len(),
    {
        if comps.len() == 0 {
            Resolution::Found(cur)
        } else {
            let es = self.dir_listing(cur.start);
            let j = first_match(es, comps[0]);
            if j >= es.len() {
                if comps.len() == 1 {
                    Resolution::Missing
                } else {
                    Resolution::MissingDir
                }
            } else if es[j].is_dir {
                self.spec_resolve(es[j], comps.drop_first())
            } else if comps.len() == 1 {
                Resolution::Found(es[j])
            } else {
                Resolution::NotADirectory
            }
        }
    }

    /// The chain walk is deterministic: a complete cluster chain is
    /// uniquely determined by its starting cluster, so every read of one
    /// file's chain yields the same clusters.
    #[verifier::rlimit(50)]
    pub proof fn lemma_chain_unique(&self, s1: Seq<Cluster>, s2: Seq<Cluster>)
        requires
            self.is_chain(s1),
            self.is_chain(s2),
            s1[0] == s2[0],
        ensures
            s1 == s2,
        decreases s1.len(),
    {
        if s1.len() == 1 {
            if s2.len() > 1 {
                assert(self.spec_fat_status(s2[0].0) == Status::Data(s2[1]));
                assert(self.spec_fat_status(s1[0].0) is Eoc);
                assert(false);
            }
            assert(s1 =~= s2);
        } else if s2.len() == 1 {
            assert(self.spec_fat_status(s1[0].0) == Status::Data(s1[1]));
            assert(self.spec_fat_status(s2[0].0) is Eoc);
            assert(false);
        } else {
            assert(s1[1] == s2[1]);
            self.lemma_chain_tail(s1);
            self.lemma_chain_tail(s2);
            self.lemma_chain_unique(s1.drop_first(), s2.drop_first());
            assert(s1.len() == s2.len());
            assert forall|i: int| 0 <= i < s1.len() implies s1[i] == s2[i] by {
                if i > 0 {
                    assert(s1.drop_first()[i - 1] == s1[i]);
                    assert(s2.drop_first()[i - 1] == s2[i]);
                }
            }
            assert(s1 =~= s2);
        }
    }

    /// The tail of a chain of two or more clusters is itself a chain.
    proof fn lemma_chain_tail(&self, s: Seq<Cluster>)
        requires
            self.is_chain(s),
            s.len() >= 2,
        ensures
            self.is_chain(s.drop_first()),
    {
        let t = s.drop_first();
        assert forall|i: int| 0 <= i < t.len() implies self.cluster_in_range(#[trigger] t[i]) by {
            assert(t[i] == s[i + 1]);
        }
        assert forall|i: int|
            0 <= i < t.len() - 1 implies self.spec_fat_status((#[trigger] t[i]).0)
            == Status::Data(t[i + 1]) by {
            assert(t[i] == s[i + 1] && t[i + 1] == s[i + 2]);
        }
        assert(t[t.len() - 1] == s[s.len() - 1]);
    }

    /// The synthetic root directory: its chain starts at the root
    /// cluster recorded in the BPB, its name is empty.
    pub fn root(&self) -> (r: Dir)
        ensures
            r@ == self.root_model(),
    {
        Dir {
            start_cluster: self.root_dir_cluster,
            name: String::new(),
            metadata: Metadata {
                attribs: Attributes(0),
                created: Timestamp { time: Time(0), date: Date(0) },
                accessed: Date(0),
                modified: Timestamp { time: Time(0), date: Date(0) },
            },
        }
    }

    /// Opens the entry an absolute path names: starting at the root
    /// directory, each component is looked up case-insensitively in the
    /// current directory; directories are descended into, a file is
    /// returned only as the last component. A path that is not absolute
    /// or carries a `.` or `..` component is rejected with
    /// `InvalidInput`; a missing last component yields `NotFound`, a
    /// missing or non-directory intermediate one `InvalidInput`.
    #[verifier::loop_isolation(false)]
    pub fn open(&mut self, path: &str) -> (r: Result<Entry, IoError>)
        requires
            old(self).wf(),
        ensures
            final(self).wf(),
            final(self).same_fs(old(self)),
            !spec_path_ok(path@) ==> (r matches Err(e) && e == IoError::InvalidInput),
            spec_path_ok(path@) && split_chars(path@).len() == 0 ==> (r matches Ok(e) && e@
                == old(self).root_model()),
            r matches Ok(e) ==> spec_path_ok(path@) && old(self).spec_resolve(
                old(self).root_model(),
                split_chars(path@),
            ) == Resolution::Found(e@),
    {
        let ghost fs0 = *self;
        let ghost all = split_chars(path@);
        let comps = match split_path(path) {
            Some(c) => c,
            None => {
                return Err(IoError::InvalidInput);
            },
        };
        let ncomps = comps.len();
        let mut cwd: Dir = self.root();
        let mut idx: usize = 0;
        proof {
            assert(all.skip(0) =~= all);
        }
        while idx < ncomps
            invariant
                idx <= ncomps,
                self.wf(),
                self.same_fs(&fs0),
                ncomps == all.len(),
                comps@.map_values(|c: String| c@) == all,
                fs0.spec_resolve(fs0.root_model(), all) == fs0.spec_resolve(
                    cwd@,
                    all.skip(idx as int),
                ),
            decreases ncomps - idx,
        {
            let ghost pre = *self;
            let found = cwd.find(self, comps[idx].as_str());
            proof {
                assert(comps@[idx as int]@ == all[idx as int]);
                assert(all.skip(idx as int)[0] == all[idx as int]);
            }
            match found {
                Err(e) => {
                    match e {
                        IoError::NotFound => {
                            if idx == ncomps - 1 {
                                return Err(IoError::NotFound);
                            } else {
                                return Err(IoError::InvalidInput);
                            }
                        },
                        _ => {
                            return Err(e);
                        },
                    }
                },
                Ok(entry) => {
                    proof {
                        let name = all[idx as int];
                        let s = choose|s: Seq<Cluster>|
                            #![trigger pre.is_chain(s)]
                            {
                                let es = parse_dir(pre.chain_data(s));
                                &&& pre.is_chain(s)
                                &&& s[0] == cwd.start_cluster
                                &&& exists|j: int|
                                    {
                                        &&& 0 <= j < es.len()
                                        &&& entry@ == es[j]
                                        &&& eq_ignore_case(es[j].name, name)
                                        &&& forall|k: int|
                                            0 <= k < j ==> !eq_ignore_case(
                                                (#[trigger] es[k]).name,
                                                name,
                                            )
                                    }
                            };
                        pre.lemma_same_fs_model(&fs0);
                        assert(fs0.is_chain(s) && s[0] == cwd.start_cluster);
                        let sc = fs0.spec_chain(cwd.start_cluster);
                        assert(fs0.is_chain(sc) && sc[0] == cwd.start_cluster);
                        fs0.lemma_chain_unique(sc, s);
                        let es = parse_dir(fs0.chain_data(s));
                        assert(fs0.dir_listing(cwd@.start) == es);
                        let j = choose|j: int|
                            #![trigger parse_dir(pre.chain_data(s))[j]]
                            {
                                let es2 = parse_dir(pre.chain_data(s));
                                &&& 0 <= j < es2.len()
                                &&& entry@ == es2[j]
                                &&& eq_ignore_case(es2[j].name, name)
                                &&& forall|k: int|
                                    0 <= k < j ==> !eq_ignore_case((#[trigger] es2[k]).name, name)
                            };
                        assert(parse_dir(pre.chain_data(s)) == es);
                        lemma_first_match(es, name);
                        let fm = first_match(es, name);
                        if fm < j {
                            assert(eq_ignore_case(es[fm].name, name));
                            assert(false);
                        }
                        if fm > j {
                            assert(!eq_ignore_case(es[j].name, name));
                            assert(false);
                        }
                        assert(fm == j);
                        assert(all.skip(idx as int).drop_first() =~= all.skip(idx + 1));
                    }
                    match entry {
                        Entry::Dir(d) => {
                            cwd = d;
                        },
                        Entry::File(f) => {
                            if idx == ncomps - 1 {
                                proof {
                                    assert(all.skip(idx as int).len() == 1);
                                }
                                return Ok(Entry::File(f));
                            } else {
                                return Err(IoError::InvalidInput);
                            }
                        },
                    }
                },
            }
            idx = idx + 1;
        }
        proof {
            assert(all.skip(ncomps as int) =~= Seq::<Seq<char>>::empty());
        }
        Ok(Entry::Dir(cwd))
    }

    /// Creating files is refused: the filesystem is read-only.
    pub fn create_file(&mut self, _path: &str) -> (r: Result<crate::file::File, IoError>)
        ensures
            r == Err::<crate::file::File, IoError>(IoError::Unsupported),
    {
        Err(IoError::Unsupported)
    }

    /// Creating directories is refused: the filesystem is read-only.
    pub fn create_dir(&mut self, _path: &str, _parents: bool) -> (r: Result<Dir, IoError>)
        ensures
            r == Err::<Dir, IoError>(IoError::Unsupported),
    {
        Err(IoError::Unsupported)
    }

    /// Renaming is refused: the filesystem is read-only.
    pub fn rename(&mut self, _from: &str, _to: &str) -> (r: Result<(), IoError>)
        ensures
            r == Err::<(), IoError>(IoError::Unsupported),
    {
        Err(IoError::Unsupported)
    }

    /// Removing is refused: the filesystem is read-only.
    pub fn remove(&mut self, _path: &str, _children: bool) -> (r: Result<(), IoError>)
        ensures
            r == Err::<(), IoError>(IoError::Unsupported),
    {
        Err(IoError::Unsupported)
    }
}

} // verus!
