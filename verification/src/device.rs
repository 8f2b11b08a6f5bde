//! The block-device abstraction the filesystem is mounted on, and a simple
//! in-memory device used to exercise the library.

use vstd::prelude::*;

verus! {

/// The error kinds that sector reads and filesystem operations surface.
#[derive(Copy, Clone, Debug, PartialEq, Eq, Structural)]
pub enum IoError {
    /// A requested sector or directory entry does not exist.
    NotFound,
    /// The caller handed in something malformed (a relative path, a
    /// non-normal path component).
    InvalidInput,
    /// The on-disk structures are corrupt (a bad cluster, a broken chain).
    InvalidData,
    /// A buffer was too small for the requested transfer.
    UnexpectedEof,
    /// The operation is not supported: the filesystem is read-only.
    Unsupported,
    /// Any other device-specific failure.
    Other,
}

/// A storage device addressed as an array of fixed-size sectors.
///
/// The ghost model of a device is the pair of `spec_sector_size` and
/// `spec_sector`: every sector holds exactly `spec_sector_size` bytes, and
/// reading never changes the modelled contents. A read is allowed to fail
/// at any time (the error is propagated verbatim to the caller), but a
/// successful read hands back exactly the modelled bytes.
///
/// The trait deliberately has no write method: everything above it is
/// read-only, and a fixed device model is what lets every layer promise
/// that repeated reads agree.
pub trait BlockDevice: Sized {
    /// The size in bytes of one sector of this device.
    spec fn spec_sector_size(&self) -> u64;

    /// The bytes held by sector `n` in the device's current state.
    spec fn spec_sector(&self, n: u64) -> Seq<u8>;

    /// Well-formedness of the device state.
    spec fn inv(&self) -> bool;

    /// Every well-formed device has sectors of at least 512 bytes, and
    /// every modelled sector holds exactly one sector's worth of bytes.
    proof fn lemma_inv(&self)
        requires
            self.inv(),
        ensures
            512 <= self.spec_sector_size(),
            forall|n: u64| (#[trigger] self.spec_sector(n)).len() == self.spec_sector_size(),
    ;

    /// Returns the sector size in bytes.
    fn sector_size(&self) -> (r: u64)
        requires
            self.inv(),
        ensures
            r == self.spec_sector_size(),
    ;

    /// Appends the contents of sector `n` to `buf`. On failure `buf` is
    /// left untouched; either way the device still models the same
    /// contents.
    fn read_sector(&mut self, n: u64, buf: &mut Vec<u8>) -> (r: Result<(), IoError>)
        requires
            old(self).inv(),
        ensures
            final(self).inv(),
            final(self).spec_sector_size() == old(self).spec_sector_size(),
            forall|m: u64| #[trigger] final(self).spec_sector(m) == old(self).spec_sector(m),
            r is Ok ==> final(buf)@ == old(buf)@ + old(self).spec_sector(n),
            r is Err ==> final(buf)@ == old(buf)@,
    ;
}

/// Two devices (or two states of one device) model identical contents:
/// the same sector size and the same bytes in every sector.
pub open spec fn same_contents<D: BlockDevice>(a: &D, b: &D) -> bool {
    &&& a.spec_sector_size() == b.spec_sector_size()
    &&& forall|n: u64|
        #![trigger a.spec_sector(n)]
        #![trigger b.spec_sector(n)]
        a.spec_sector(n) == b.spec_sector(n)
}

/// The bytes of `count` physical sectors of `dev` starting at sector
/// `base`, read back to back.
pub open spec fn concat_sectors<D: BlockDevice>(dev: &D, base: int, count: nat) -> Seq<u8>
    decreases count,
{
    if count == 0 {
        Seq::empty()
    } else {
        dev.spec_sector(base as u64) + concat_sectors(dev, base + 1, (count - 1) as nat)
    }
}

/// A run of sectors holds one sector size of bytes per sector.
pub proof fn lemma_concat_sectors_len<D: BlockDevice>(dev: &D, base: int, count: nat)
    requires
        dev.inv(),
    ensures
        concat_sectors(dev, base, count).len() == count * dev.spec_sector_size(),
    decreases count,
{
    if count == 0 {
        assert(count * dev.spec_sector_size() == 0);
    } else {
        dev.lemma_inv();
        lemma_concat_sectors_len(dev, base + 1, (count - 1) as nat);
        assert((count - 1) * dev.spec_sector_size() + dev.spec_sector_size() == count
            * dev.spec_sector_size()) by (nonlinear_arith);
    }
}

/// Reading one more sector appends exactly that sector's bytes.
pub proof fn lemma_concat_sectors_snoc<D: BlockDevice>(dev: &D, base: int, count: nat)
    ensures
        concat_sectors(dev, base, count + 1) == concat_sectors(dev, base, count) + dev.spec_sector(
            (base + count) as u64,
        ),
    decreases count,
{
    if count == 0 {
        assert(concat_sectors(dev, base, 0) == Seq::<u8>::empty());
        assert(concat_sectors(dev, base, 1) == dev.spec_sector(base as u64) + concat_sectors(
            dev,
            base + 1,
            0,
        ));
        assert(concat_sectors(dev, base, 1) =~= concat_sectors(dev, base, 0) + dev.spec_sector(
            base as u64,
        ));
    } else {
        lemma_concat_sectors_snoc(dev, base + 1, (count - 1) as nat);
        assert(concat_sectors(dev, base, count + 1) =~= concat_sectors(dev, base, count)
            + dev.spec_sector((base + count) as u64));
    }
}

/// Within a run of sectors, sector `k` occupies exactly the bytes
/// `k * size .. (k + 1) * size`.
pub proof fn lemma_concat_sectors_slice<D: BlockDevice>(dev: &D, base: int, count: nat, k: nat)
    requires
        dev.inv(),
        k < count,
    ensures
        concat_sectors(dev, base, count).subrange(
            k * dev.spec_sector_size(),
            k * dev.spec_sector_size() + dev.spec_sector_size(),
        ) == dev.spec_sector((base + k) as u64),
    decreases count,
{
    dev.lemma_inv();
    lemma_concat_sectors_len(dev, base, count);
    lemma_concat_sectors_len(dev, base + 1, (count - 1) as nat);
    let size = dev.spec_sector_size() as int;
    if k == 0 {
        assert(concat_sectors(dev, base, count).subrange(0, size) =~= dev.spec_sector(
            base as u64,
        ));
    } else {
        lemma_concat_sectors_slice(dev, base + 1, (count - 1) as nat, (k - 1) as nat);
        assert((k - 1) * size == k * size - size) by (nonlinear_arith);
        assert(0 <= (k - 1) * size && (k - 1) * size + size <= (count - 1) * size)
            by (nonlinear_arith)
            requires
                1 <= k < count,
                size >= 0,
        ;
        assert(concat_sectors(dev, base, count).subrange(k * size, k * size + size)
            =~= concat_sectors(dev, base + 1, (count - 1) as nat).subrange(
            (k - 1) * size,
            (k - 1) * size + size,
        ));
    }
}

/// Two device states with the same contents yield the same sector runs.
pub proof fn lemma_concat_sectors_same<D: BlockDevice>(a: &D, b: &D, base: int, count: nat)
    requires
        same_contents(a, b),
    ensures
        concat_sectors(a, base, count) == concat_sectors(b, base, count),
    decreases count,
{
    if count > 0 {
        lemma_concat_sectors_same(a, b, base + 1, (count - 1) as nat);
    }
}

/// Reads `count` physical sectors of `device` starting at `base` into a
/// fresh buffer, back to back. Fails with the first device error.
#[verifier::loop_isolation(false)]
pub(crate) fn read_run<D: BlockDevice>(device: &mut D, base: u64, count: u64) -> (r: Result<
    Vec<u8>,
    IoError,
>)
    requires
        old(device).inv(),
        base + count <= u64::MAX,
    ensures
        final(device).inv(),
        final(device).spec_sector_size() == old(device).spec_sector_size(),
        same_contents(final(device), old(device)),
        r matches Ok(v) ==> v@ == concat_sectors(old(device), base as int, count as nat),
{
    let ghost orig = *device;
    let mut data: Vec<u8> = Vec::new();
    let mut i: u64 = 0;
    while i < count
        invariant
            i <= count,
            base + count <= u64::MAX,
            device.inv(),
            device.spec_sector_size() == orig.spec_sector_size(),
            same_contents(device, &orig),
            data@ == concat_sectors(&orig, base as int, i as nat),
        decreases count - i,
    {
        let ghost prev = *device;
        match device.read_sector(base + i, &mut data) {
            Ok(_) => {},
            Err(e) => {
                return Err(e);
            },
        }
        proof {
            lemma_concat_sectors_snoc(&orig, base as int, i as nat);
            assert(prev.spec_sector((base + i) as u64) == orig.spec_sector((base + i) as u64));
            assert forall|n: u64| #[trigger]
                device.spec_sector(n) == orig.spec_sector(n) by {
                assert(device.spec_sector(n) == prev.spec_sector(n));
            }
            assert(data@ == concat_sectors(&orig, base as int, (i + 1) as nat));
        }
        i = i + 1;
    }
    Ok(data)
}

/// A device backed by an in-memory vector of sectors.
///
/// Reads of sectors past the end of the vector fail with `NotFound`;
/// everything else succeeds. The device counts how many sector reads have
/// been issued, which lets callers observe whether a cache in front of it
/// actually avoided a read.
pub struct MemoryDevice {
    sector_size: u64,
    sectors: Vec<Vec<u8>>,
    reads: u64,
}

impl MemoryDevice {
    /// Builds a device over `sectors`, each of which must hold exactly
    /// `sector_size` bytes.
    pub fn new(sector_size: u64, sectors: Vec<Vec<u8>>) -> (r: MemoryDevice)
        requires
            512 <= sector_size,
            forall|i: int|
                0 <= i < sectors@.len() ==> (#[trigger] sectors@[i])@.len() == sector_size,
        ensures
            r.inv(),
            r.spec_sector_size() == sector_size,
            r.spec_read_count() == 0,
            forall|n: u64|
                n < sectors@.len() ==> #[trigger] r.spec_sector(n) == sectors@[n as int]@,
    {
        MemoryDevice { sector_size, sectors, reads: 0 }
    }

    /// The number of sector reads issued so far (saturating).
    pub closed spec fn spec_read_count(&self) -> u64 {
        self.reads
    }

    /// Returns the number of sector reads issued so far.
    pub fn read_count(&self) -> (r: u64)
        ensures
            r == self.spec_read_count(),
    {
        self.reads
    }
}

impl BlockDevice for MemoryDevice {
    closed spec fn spec_sector_size(&self) -> u64 {
        self.sector_size
    }

    closed spec fn spec_sector(&self, n: u64) -> Seq<u8> {
        if n < self.sectors@.len() {
            self.sectors@[n as int]@
        } else {
            Seq::new(self.sector_size as nat, |i: int| 0u8)
        }
    }

    closed spec fn inv(&self) -> bool {
        &&& 512 <= self.sector_size
        &&& forall|i: int|
            0 <= i < self.sectors@.len() ==> (#[trigger] self.sectors@[i])@.len()
                == self.sector_size
    }

    proof fn lemma_inv(&self) {
    }

    fn sector_size(&self) -> (r: u64) {
        self.sector_size
    }

    fn read_sector(&mut self, n: u64, buf: &mut Vec<u8>) -> (r: Result<(), IoError>) {
        if self.reads < u64::MAX {
            self.reads = self.reads + 1;
        }
        if n < self.sectors.len() as u64 {
            let sector = &self.sectors[n as usize];
            buf.extend_from_slice(sector.as_slice());
            Ok(())
        } else {
            Err(IoError::NotFound)
        }
    }
}

} // verus!
