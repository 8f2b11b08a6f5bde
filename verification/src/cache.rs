//! A cached sector store: translates logical partition sectors to runs of
//! physical device sectors and keeps each logical sector it has read in an
//! in-memory cache.

use vstd::prelude::*;
use std::collections::HashMap;
use crate::device::{
    BlockDevice, IoError, concat_sectors, lemma_concat_sectors_len, lemma_concat_sectors_same,
    lemma_concat_sectors_snoc, same_contents,
};
use crate::raw::copy_bytes;

verus! {

broadcast use vstd::std_specs::hash::group_hash_axioms;

/// Where a partition lies on the physical device and how large its
/// logical sectors are.
#[derive(Copy, Clone, Debug, PartialEq, Eq, Structural)]
pub struct Partition {
    /// The physical sector where the partition begins.
    pub start: u64,
    /// The size, in bytes, of a logical sector in the partition.
    pub sector_size: u64,
}

/// One cached logical sector: its bytes and a dirty bit. The dirty bit is
/// bookkeeping for future write support; nothing in the read path ever
/// writes cached data back.
struct CacheEntry {
    data: Vec<u8>,
    dirty: bool,
}

/// The ghost image of one cached logical sector.
pub struct CachedSector {
    pub data: Seq<u8>,
    pub dirty: bool,
}

/// A sector store that transparently caches logical sectors of a
/// partition, reading them from the underlying device on a miss. A
/// logical sector is `factor` physical sectors read back to back, where
/// `factor` is the ratio of the partition's sector size to the device's.
///
/// The store deliberately offers no write surface: the filesystem above
/// it is read-only, and the store's central invariant — every cached
/// sector mirrors the device's bytes exactly — could not survive writes
/// that land only in the cache. The dirty bit is kept so a future write
/// path has somewhere to start.
pub struct CachedDevice<D: BlockDevice> {
    device: D,
    cache: HashMap<u64, CacheEntry>,
    partition: Partition,
}

impl<D: BlockDevice> CachedDevice<D> {
    /// The underlying device's current state.
    pub closed spec fn spec_device(&self) -> D {
        self.device
    }

    /// The partition this store serves.
    pub closed spec fn spec_partition(&self) -> Partition {
        self.partition
    }

    /// The cache contents: logical sector number to cached bytes and
    /// dirty bit.
    pub closed spec fn spec_cache(&self) -> Map<u64, CachedSector> {
        self.cache@.map_values(|e: CacheEntry| CachedSector { data: e.data@, dirty: e.dirty })
    }

    /// Physical sectors per logical sector.
    pub open spec fn spec_factor(&self) -> u64 {
        (self.spec_partition().sector_size / self.spec_device().spec_sector_size()) as u64
    }

    /// The physical sector where logical partition sector `s` begins.
    pub open spec fn sector_base(&self, s: u64) -> int {
        self.spec_partition().start + s * self.spec_factor()
    }

    /// The bytes of logical partition sector `s`: `factor` physical
    /// sectors of the device read back to back.
    pub open spec fn sector_bytes(&self, s: u64) -> Seq<u8> {
        concat_sectors(&self.spec_device(), self.sector_base(s), self.spec_factor() as nat)
    }

    /// Whether logical sector `s` can be addressed without the physical
    /// sector numbers overflowing.
    pub open spec fn sector_ok(&self, s: u64) -> bool {
        &&& s + self.spec_partition().start <= u64::MAX
        &&& self.sector_base(s) + self.spec_factor() <= u64::MAX
    }

    /// Every cached logical sector holds exactly the bytes the device
    /// models for it.
    pub closed spec fn cache_inv(&self) -> bool {
        forall|s: u64| #[trigger]
            self.cache@.contains_key(s) ==> self.cache@[s].data@ == self.sector_bytes(s)
    }

    /// Well-formedness: the device is well formed, the partition's sector
    /// size is a nonzero multiple of the device's, and the cache mirrors
    /// the device.
    pub open spec fn wf(&self) -> bool {
        &&& self.spec_device().inv()
        &&& self.spec_partition().sector_size >= self.spec_device().spec_sector_size()
        &&& self.spec_partition().sector_size % self.spec_device().spec_sector_size() == 0
        &&& self.cache_inv()
    }

    /// The store after a call serves the same partition over a device
    /// modelling the same contents.
    pub open spec fn same_store(&self, other: &Self) -> bool {
        &&& self.spec_partition() == other.spec_partition()
        &&& same_contents(&self.spec_device(), &other.spec_device())
    }

    /// Creates a new store that caches sectors of `device` and maps
    /// logical sectors of `partition` to physical runs. The partition's
    /// sector size must be a multiple of (hence at least) the device's.
    pub fn new(device: D, partition: Partition) -> (r: CachedDevice<D>)
        requires
            device.inv(),
            partition.sector_size >= device.spec_sector_size(),
            partition.sector_size % device.spec_sector_size() == 0,
        ensures
            r.wf(),
            r.spec_device() == device,
            r.spec_partition() == partition,
            r.spec_cache() == Map::<u64, CachedSector>::empty(),
    {
        let r = CachedDevice { device, cache: HashMap::new(), partition };
        proof {
            assert(r.spec_cache() =~= Map::<u64, CachedSector>::empty());
        }
        r
    }

    /// A view of the underlying device, for callers that want to observe
    /// it (a test harness counting reads, for instance).
    pub fn device(&self) -> (r: &D)
        ensures
            *r == self.spec_device(),
    {
        &self.device
    }

    /// Maps a request for sector `virt` to the first physical sector and
    /// the number of physical sectors that hold it. Requests below the
    /// partition start address the device directly, one sector at a time;
    /// requests at or past it scale by the sector-size factor.
    pub fn virtual_to_physical(&self, virt: u64) -> (r: (u64, u64))
        requires
            self.wf(),
            virt >= self.spec_partition().start ==> self.spec_partition().start + (virt
                - self.spec_partition().start) * self.spec_factor() + self.spec_factor()
                <= u64::MAX,
        ensures
            virt < self.spec_partition().start ==> r == (virt, 1u64),
            virt >= self.spec_partition().start ==> r.0 == self.spec_partition().start + (virt
                - self.spec_partition().start) * self.spec_factor() && r.1 == self.spec_factor(),
    {
        proof {
            self.device.lemma_inv();
        }
        if self.device.sector_size() == self.partition.sector_size {
            proof {
                let ps = self.partition.sector_size;
                assert(ps / ps == 1) by (nonlinear_arith)
                    requires
                        ps > 0,
                ;
                let f = self.spec_factor();
                if virt >= self.partition.start {
                    assert((virt - self.partition.start) * f == virt - self.partition.start)
                        by (nonlinear_arith)
                        requires
                            f == 1,
                            virt >= self.partition.start,
                    ;
                }
            }
            (virt, 1)
        } else if virt < self.partition.start {
            (virt, 1)
        } else {
            let factor = self.partition.sector_size / self.device.sector_size();
            let logical_offset = virt - self.partition.start;
            let physical_offset = logical_offset * factor;
            let physical_sector = self.partition.start + physical_offset;
            (physical_sector, factor)
        }
    }

    /// Returns a copy of cached sector `sector`, reading it from the
    /// device first on a miss; `dirty` additionally marks the entry
    /// dirty. On a hit no device access happens at all and the call
    /// cannot fail. On a miss the freshly read sector is inserted; if any
    /// underlying read fails, the cache is left unchanged and the device
    /// error is returned verbatim.
    fn get_internal(&mut self, sector: u64, dirty: bool) -> (r: Result<Vec<u8>, IoError>)
        requires
            old(self).wf(),
            old(self).sector_ok(sector),
        ensures
            final(self).wf(),
            final(self).same_store(old(self)),
            old(self).spec_cache().contains_key(sector) ==> final(self).spec_device() == old(
                self,
            ).spec_device(),
            old(self).spec_cache().contains_key(sector) ==> r is Ok,
            r matches Ok(v) ==> v@ == old(self).sector_bytes(sector),
            r is Ok ==> {
                &&& final(self).spec_cache() == old(self).spec_cache().insert(
                    sector,
                    CachedSector {
                        data: old(self).sector_bytes(sector),
                        dirty: if old(self).spec_cache().contains_key(sector) {
                            old(self).spec_cache()[sector].dirty || dirty
                        } else {
                            dirty
                        },
                    },
                )
            },
            r is Err ==> final(self).spec_cache() == old(self).spec_cache(),
    {
        proof {
            self.device.lemma_inv();
        }
        if self.cache.contains_key(&sector) {
            if dirty {
                let e = self.cache.remove(&sector).unwrap();
                let data = copy_bytes(&e.data);
                self.cache.insert(sector, CacheEntry { data: e.data, dirty: true });
                proof {
                    assert(self.spec_cache() =~= old(self).spec_cache().insert(
                        sector,
                        CachedSector {
                            data: old(self).sector_bytes(sector),
                            dirty: true,
                        },
                    ));
                }
                Ok(data)
            } else {
                let e = self.cache.get(&sector).unwrap();
                let data = copy_bytes(&e.data);
                proof {
                    assert(self.spec_cache() =~= old(self).spec_cache().insert(
                        sector,
                        CachedSector {
                            data: old(self).sector_bytes(sector),
                            dirty: old(self).spec_cache()[sector].dirty,
                        },
                    ));
                }
                Ok(data)
            }
        } else {
            let (phys, count) = self.virtual_to_physical(sector + self.partition.start);
            proof {
                assert(phys == old(self).sector_base(sector));
                assert(count == old(self).spec_factor());
            }
            match crate::device::read_run(&mut self.device, phys, count) {
                Err(e) => {
                    proof {
                        self.lemma_same_contents_cache_inv(old(self));
                    }
                    Err(e)
                },
                Ok(data) => {
                    let ret = copy_bytes(&data);
                    self.cache.insert(sector, CacheEntry { data, dirty });
                    proof {
                        self.lemma_same_contents_sector_bytes(old(self), sector);
                        assert forall|s: u64| #[trigger]
                            self.cache@.contains_key(s) implies self.cache@[s].data@
                            == self.sector_bytes(s) by {
                            if s != sector {
                                assert(old(self).cache@.contains_key(s));
                                self.lemma_same_contents_sector_bytes(old(self), s);
                            }
                        }
                        assert(self.spec_cache() =~= old(self).spec_cache().insert(
                            sector,
                            CachedSector { data: old(self).sector_bytes(sector), dirty },
                        ));
                    }
                    Ok(ret)
                },
            }
        }
    }

    /// Returns a copy of the bytes of logical sector `sector`, reading
    /// the sector from the device first if it is not already cached. On a
    /// hit no device access happens and the call cannot fail; on a miss
    /// the sector is inserted clean. A failed device read leaves the
    /// cache unchanged and returns the device error verbatim.
    pub fn get(&mut self, sector: u64) -> (r: Result<Vec<u8>, IoError>)
        requires
            old(self).wf(),
            old(self).sector_ok(sector),
        ensures
            final(self).wf(),
            final(self).same_store(old(self)),
            old(self).spec_cache().contains_key(sector) ==> final(self).spec_device() == old(
                self,
            ).spec_device(),
            old(self).spec_cache().contains_key(sector) ==> r is Ok,
            r matches Ok(v) ==> v@ == old(self).sector_bytes(sector),
            r is Ok ==> final(self).spec_cache() == old(self).spec_cache().insert(
                sector,
                CachedSector {
                    data: old(self).sector_bytes(sector),
                    dirty: if old(self).spec_cache().contains_key(sector) {
                        old(self).spec_cache()[sector].dirty
                    } else {
                        false
                    },
                },
            ),
            r is Err ==> final(self).spec_cache() == old(self).spec_cache(),
    {
        self.get_internal(sector, false)
    }

    /// Like [`Self::get`], but additionally marks the cached sector
    /// dirty, on the presumption that the caller will modify it.
    pub fn get_mut(&mut self, sector: u64) -> (r: Result<Vec<u8>, IoError>)
        requires
            old(self).wf(),
            old(self).sector_ok(sector),
        ensures
            final(self).wf(),
            final(self).same_store(old(self)),
            old(self).spec_cache().contains_key(sector) ==> final(self).spec_device() == old(
                self,
            ).spec_device(),
            old(self).spec_cache().contains_key(sector) ==> r is Ok,
            r matches Ok(v) ==> v@ == old(self).sector_bytes(sector),
            r is Ok ==> final(self).spec_cache() == old(self).spec_cache().insert(
                sector,
                CachedSector { data: old(self).sector_bytes(sector), dirty: true },
            ),
            r is Err ==> final(self).spec_cache() == old(self).spec_cache(),
    {
        self.get_internal(sector, true)
    }

    /// Two store states that serve the same partition over devices with
    /// the same contents also model the same contents when viewed as
    /// block devices themselves.
    pub proof fn lemma_same_store_same_contents(&self, other: &Self)
        requires
            self.same_store(other),
        ensures
            same_contents(self, other),
    {
        assert forall|n: u64| #[trigger] self.sector_bytes(n) == other.sector_bytes(n) by {
            self.lemma_same_contents_sector_bytes(other, n);
        }
    }

    /// Two store states over devices with the same contents assign every
    /// logical sector the same bytes.
    pub proof fn lemma_same_contents_sector_bytes(&self, other: &Self, s: u64)
        requires
            self.same_store(other),
        ensures
            self.sector_bytes(s) == other.sector_bytes(s),
    {
        lemma_concat_sectors_same(
            &self.spec_device(),
            &other.spec_device(),
            self.sector_base(s),
            self.spec_factor() as nat,
        );
    }

    /// A store whose cache field is unchanged and whose device still
    /// models the same contents still satisfies the cache invariant.
    proof fn lemma_same_contents_cache_inv(&self, other: &Self)
        requires
            self.same_store(other),
            self.cache@ == other.cache@,
            other.cache_inv(),
        ensures
            self.cache_inv(),
    {
        assert forall|s: u64| #[trigger]
            self.cache@.contains_key(s) implies self.cache@[s].data@ == self.sector_bytes(s) by {
            self.lemma_same_contents_sector_bytes(other, s);
        }
    }
}

/// The store itself honours the block-device contract, with the
/// partition's logical sectors as its sectors — but only over sectors
/// already in the cache: a read of an uncached sector fails with
/// `NotFound` rather than touching the underlying device.
impl<D: BlockDevice> BlockDevice for CachedDevice<D> {
    open spec fn spec_sector_size(&self) -> u64 {
        self.spec_partition().sector_size
    }

    open spec fn spec_sector(&self, n: u64) -> Seq<u8> {
        self.sector_bytes(n)
    }

    open spec fn inv(&self) -> bool {
        self.wf()
    }

    proof fn lemma_inv(&self) {
        self.spec_device().lemma_inv();
        assert forall|n: u64| (#[trigger] self.spec_sector(n)).len() == self.spec_sector_size() by {
            lemma_concat_sectors_len(
                &self.spec_device(),
                self.sector_base(n),
                self.spec_factor() as nat,
            );
            let ps = self.spec_partition().sector_size;
            let ds = self.spec_device().spec_sector_size();
            assert(ps / ds * ds == ps) by (nonlinear_arith)
                requires
                    ds > 0,
                    ps % ds == 0,
            ;
        }
    }

    fn sector_size(&self) -> (r: u64) {
        self.partition.sector_size
    }

    fn read_sector(&mut self, n: u64, buf: &mut Vec<u8>) -> (r: Result<(), IoError>) {
        match self.cache.get(&n) {
            Some(e) => {
                crate::raw::append_bytes(buf, &e.data);
                Ok(())
            },
            None => Err(IoError::NotFound),
        }
    }
}

} // verus!
