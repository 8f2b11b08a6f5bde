//! File handles: sequential readers over a file's cluster chain.

use vstd::prelude::*;
use crate::cluster::Cluster;
use crate::device::{BlockDevice, IoError};
use crate::entry::EntryModel;
use crate::fat::Status;
use crate::metadata::Metadata;
use crate::raw::copy_into;
use crate::vfat::VFat;

verus! {

/// A file descriptor plus a sequential read position. `pos` is the byte
/// offset of the next read, never past the file size; `curr` is the
/// cluster holding that offset.
#[derive(Debug)]
pub struct File {
    pub start_cluster: Cluster,
    pub name: String,
    pub metadata: Metadata,
    pub size: u32,
    pub pos: usize,
    pub curr: Cluster,
}

impl View for File {
    type V = EntryModel;

    open spec fn view(&self) -> EntryModel {
        EntryModel {
            is_dir: false,
            name: self.name@,
            start: self.start_cluster,
            metadata: self.metadata,
            size: self.size,
        }
    }
}

impl File {
    /// A fresh handle positioned at the start of the file.
    pub fn new(start_cluster: Cluster, name: String, metadata: Metadata, size: u32) -> (r: File)
        ensures
            r.start_cluster == start_cluster,
            r.name == name,
            r.metadata == metadata,
            r.size == size,
            r.pos == 0,
            r.curr == start_cluster,
    {
        File { start_cluster, name, metadata, size, pos: 0, curr: start_cluster }
    }

    /// The file's size in bytes, as its directory entry declares it.
    pub fn size(&self) -> (r: u64)
        ensures
            r == self.size,
    {
        self.size as u64
    }

    /// The handle's read position is consistent with the filesystem: it
    /// never passed the file size, and as long as there are bytes left,
    /// a complete chain of at least the declared size starts at the
    /// file's first cluster and `curr` is the chain's cluster holding
    /// the position.
    pub open spec fn pos_wf<D: BlockDevice>(&self, fs: &VFat<D>) -> bool {
        &&& self.pos <= self.size
        &&& self.size > 0 ==> {
            &&& fs.has_chain(self.start_cluster)
            &&& self.size <= fs.spec_chain(self.start_cluster).len() * fs.spec_cluster_bytes()
            &&& (self.pos < self.size ==> self.curr == fs.spec_chain(self.start_cluster)[
                self.pos as int / fs.spec_cluster_bytes()
            ])
        }
    }

    /// Reads from the current position into the front of `buf`: on
    /// success exactly `min(buf.len(), size - pos)` bytes are filled in
    /// and returned, they are the file's bytes from the position on, and
    /// the position advances past them. The rest of the buffer is
    /// untouched. An end-of-chain or corrupt FAT entry met while the
    /// declared size promises more data surfaces as `InvalidData`;
    /// device errors are returned verbatim. On any error the handle
    /// stays consistent, though the position may have advanced over a
    /// partial read.
    #[verifier::loop_isolation(false)]
    #[verifier::rlimit(100)]
    pub fn read<D: BlockDevice>(&mut self, fs: &mut VFat<D>, buf: &mut Vec<u8>) -> (r: Result<
        usize,
        IoError,
    >)
        requires
            old(fs).wf(),
            old(self).pos_wf(old(fs)),
        ensures
            final(fs).wf(),
            final(fs).same_fs(old(fs)),
            final(self).pos_wf(final(fs)),
            final(self).start_cluster == old(self).start_cluster,
            final(self).name == old(self).name,
            final(self).metadata == old(self).metadata,
            final(self).size == old(self).size,
            final(buf)@.len() == old(buf)@.len(),
            old(self).size == 0 || old(self).pos >= old(self).size || old(buf)@.len() == 0 ==> (
            r matches Ok(n) && n == 0 && *final(self) == *old(self)),
            r matches Ok(n) ==> {
                let avail = old(self).size - old(self).pos;
                &&& n == if old(buf)@.len() <= avail {
                    old(buf)@.len() as int
                } else {
                    avail as int
                }
                &&& final(self).pos == old(self).pos + n
                &&& n > 0 ==> final(buf)@.subrange(0, n as int) == old(fs).file_data(
                    old(self).start_cluster,
                    old(self).size,
                ).subrange(old(self).pos as int, old(self).pos + n)
                &&& final(buf)@.subrange(n as int, final(buf)@.len() as int) == old(
                    buf,
                )@.subrange(n as int, old(buf)@.len() as int)
            },
    {
        let ghost fs0 = *fs;
        let ghost pos0 = self.pos;
        let ghost chain = fs0.spec_chain(self.start_cluster);
        let ghost cb = fs0.spec_cluster_bytes();
        let ghost data = fs0.file_data(self.start_cluster, self.size);
        let buf_len = buf.len();
        if self.size == 0 || self.pos >= self.size as usize || buf_len == 0 {
            proof {
                assert(buf@.subrange(0, buf_len as int) =~= old(buf)@.subrange(
                    0,
                    buf_len as int,
                ));
            }
            return Ok(0);
        }
        proof {
            assert(fs0.is_chain(chain) && chain[0] == self.start_cluster);
            fs0.lemma_chain_data_len(chain);
        }
        let cluster_bytes = self.cluster_size(fs);
        let mut read: usize = 0;
        while read < buf_len && self.pos < self.size as usize
            invariant
                fs.wf(),
                fs.same_fs(&fs0),
                read <= buf_len,
                buf@.len() == buf_len,
                0 < cluster_bytes == cb,
                self.size > 0,
                pos0 + read == self.pos,
                self.pos <= self.size,
                self.start_cluster == old(self).start_cluster,
                self.name == old(self).name,
                self.metadata == old(self).metadata,
                self.size == old(self).size,
                self.curr == old(self).curr || read > 0,
                self.pos < self.size ==> self.curr == chain[self.pos as int / cb],
                data.len() == self.size,
                self.size <= chain.len() * cb,
                buf@.subrange(0, read as int) == data.subrange(pos0 as int, pos0 + read),
                buf@.subrange(read as int, buf_len as int) == old(buf)@.subrange(
                    read as int,
                    buf_len as int,
                ),
            decreases buf_len - read,
        {
            let cluster_offset = self.pos % cluster_bytes;
            let remaining_in_cluster = cluster_bytes - cluster_offset;
            let mut max_read = remaining_in_cluster;
            if buf_len - read < max_read {
                max_read = buf_len - read;
            }
            if self.size as usize - self.pos < max_read {
                max_read = self.size as usize - self.pos;
            }
            let ghost k = self.pos as int / cb;
            proof {
                vstd::arithmetic::div_mod::lemma_fundamental_div_mod(self.pos as int, cb);
                assert(0 <= k && k * cb <= self.pos && self.pos as int % cb == self.pos - k * cb)
                    by (nonlinear_arith)
                    requires
                        cb > 0,
                        self.pos >= 0,
                        k == self.pos as int / cb,
                        self.pos as int == (self.pos as int / cb) * cb + (self.pos as int % cb),
                        0 <= self.pos as int % cb < cb,
                ;
                assert(k < chain.len()) by (nonlinear_arith)
                    requires
                        cb > 0,
                        k * cb <= self.pos,
                        self.pos < self.size,
                        self.size <= chain.len() * cb,
                        self.pos as int % cb < cb,
                        self.pos as int % cb == self.pos - k * cb,
                ;
                fs0.lemma_chain_data_slice(chain, k);
                assert((k + 1) * cb == k * cb + cb) by (nonlinear_arith);
            }
            let mut tmp: Vec<u8> = vec![0u8; max_read];
            let ghost pre = *fs;
            let n = match fs.read_cluster(self.curr, cluster_offset, &mut tmp) {
                Ok(n) => n,
                Err(e) => {
                    proof {
                        self.lemma_pos_wf_restore(fs, &fs0, chain);
                    }
                    return Err(e);
                },
            };
            proof {
                pre.lemma_same_fs_model(&fs0);
                assert(n == max_read);
                assert(tmp@.subrange(0, n as int) =~= tmp@);
                assert(tmp@ == fs0.cluster_data(chain[k]).subrange(
                    cluster_offset as int,
                    cluster_offset + max_read,
                ));
                lemma_cluster_slice_bytes(
                    &fs0,
                    chain,
                    k,
                    cluster_offset as int,
                    max_read as int,
                    self.pos as int,
                    self.size,
                );
                assert forall|t: int|
                    0 <= t < max_read implies #[trigger] tmp@[t] == data[self.pos + t] by {
                    assert(tmp@[t] == fs0.cluster_data(chain[k]).subrange(
                        cluster_offset as int,
                        cluster_offset + max_read,
                    )[t]);
                }
            }
            // look the next cluster up before moving the position, so a
            // failure leaves the handle consistent
            let crossing = max_read == remaining_in_cluster && self.pos + max_read < self.size
                as usize;
            let next_cluster = if crossing {
                let ghost pre2 = *fs;
                let entry = match fs.fat_entry(self.curr) {
                    Ok(e) => e,
                    Err(e) => {
                        proof {
                            self.lemma_pos_wf_restore(fs, &fs0, chain);
                        }
                        return Err(e);
                    },
                };
                proof {
                    pre2.lemma_same_fs_model(&fs0);
                    assert(k + 1 < chain.len()) by (nonlinear_arith)
                        requires
                            cb > 0,
                            self.pos + max_read == k * cb + cb,
                            self.pos + max_read < self.size,
                            self.size <= chain.len() * cb,
                            (k + 1) * cb == k * cb + cb,
                    ;
                    assert(fs0.spec_fat_status(chain[k].0) == Status::Data(chain[k + 1]));
                }
                match entry.status() {
                    Status::Data(c) => Some(c),
                    _ => {
                        proof {
                            self.lemma_pos_wf_restore(fs, &fs0, chain);
                        }
                        return Err(IoError::InvalidData);
                    },
                }
            } else {
                None
            };
            let ghost buf_before = buf@;
            let copied = copy_into(buf, read, &tmp, 0);
            proof {
                assert(copied == max_read);
                assert(tmp@.subrange(0, max_read as int) =~= tmp@);
                lemma_copy_extends(
                    buf_before,
                    buf@,
                    tmp@,
                    read as int,
                    max_read as int,
                    data,
                    pos0 as int,
                    old(buf)@,
                );
            }
            read = read + max_read;
            self.pos = self.pos + max_read;
            match next_cluster {
                Some(c) => {
                    self.curr = c;
                    proof {
                        assert(self.pos as int / cb == k + 1) by (nonlinear_arith)
                            requires
                                cb > 0,
                                self.pos == (k + 1) * cb,
                        ;
                    }
                },
                None => {
                    proof {
                        if self.pos < self.size {
                            vstd::arithmetic::div_mod::lemma_fundamental_div_mod(
                                self.pos as int,
                                cb,
                            );
                            assert(self.pos as int / cb == k) by (nonlinear_arith)
                                requires
                                    cb > 0,
                                    k >= 0,
                                    k * cb <= self.pos - max_read,
                                    (self.pos - max_read) - k * cb + max_read < cb,
                                    self.pos as int == (self.pos as int / cb) * cb + (
                                    self.pos as int % cb),
                                    0 <= self.pos as int % cb < cb,
                            ;
                        }
                    }
                },
            }
        }
        proof {
            self.lemma_pos_wf_restore(fs, &fs0, chain);
            assert(buf@.subrange(0, read as int) == data.subrange(pos0 as int, pos0 + read));
        }
        Ok(read)
    }

    /// A handle whose position tracks `chain` in the original mount is
    /// consistent with any later state of the same mount.
    proof fn lemma_pos_wf_restore<D: BlockDevice>(
        &self,
        fs: &VFat<D>,
        fs0: &VFat<D>,
        chain: Seq<Cluster>,
    )
        requires
            fs.wf(),
            fs.same_fs(fs0),
            fs0.is_chain(chain),
            chain[0] == self.start_cluster,
            self.pos <= self.size,
            self.size > 0,
            self.size <= chain.len() * fs0.spec_cluster_bytes(),
            self.pos < self.size ==> self.curr == chain[self.pos as int
                / fs0.spec_cluster_bytes()],
        ensures
            self.pos_wf(fs),
    {
        fs0.lemma_same_fs_model(fs);
        assert(fs.is_chain(chain));
        assert(fs.has_chain(self.start_cluster));
        let sc = fs.spec_chain(self.start_cluster);
        assert(fs.is_chain(sc) && sc[0] == self.start_cluster);
        fs.lemma_chain_unique(sc, chain);
    }

    /// The cluster size in bytes, computed without overflow.
    fn cluster_size<D: BlockDevice>(&self, fs: &VFat<D>) -> (r: usize)
        requires
            fs.wf(),
        ensures
            r == fs.spec_cluster_bytes(),
            r > 0,
    {
        let bps = fs.bytes_per_sector as usize;
        let spc = fs.sectors_per_cluster as usize;
        proof {
            assert(1 <= bps * spc <= 0xFFFF * 0xFF) by (nonlinear_arith)
                requires
                    1 <= bps <= 0xFFFF,
                    1 <= spc <= 0xFF,
            ;
        }
        bps * spc
    }

}

/// Splicing the next run of file bytes into the buffer extends the
/// filled prefix and leaves the tail of the original buffer in place.
proof fn lemma_copy_extends(
    before: Seq<u8>,
    after: Seq<u8>,
    tmp: Seq<u8>,
    dst: int,
    m: int,
    data: Seq<u8>,
    dpos: int,
    orig: Seq<u8>,
)
    requires
        after.len() == before.len(),
        orig.len() == before.len(),
        0 <= dst,
        0 <= m,
        dst + m <= before.len(),
        tmp.len() == m,
        0 <= dpos,
        dpos + dst + m <= data.len(),
        after.subrange(0, dst) == before.subrange(0, dst),
        after.subrange(dst, dst + m) == tmp.subrange(0, m),
        after.subrange(dst + m, before.len() as int) == before.subrange(
            dst + m,
            before.len() as int,
        ),
        before.subrange(0, dst) == data.subrange(dpos, dpos + dst),
        forall|t: int| 0 <= t < m ==> #[trigger] tmp[t] == data[dpos + dst + t],
        before.subrange(dst, before.len() as int) == orig.subrange(dst, orig.len() as int),
    ensures
        after.subrange(0, dst + m) == data.subrange(dpos, dpos + dst + m),
        after.subrange(dst + m, after.len() as int) == orig.subrange(dst + m, orig.len() as int),
{
    assert forall|t: int|
        0 <= t < dst + m implies #[trigger] after.subrange(0, dst + m)[t] == data.subrange(
        dpos,
        dpos + dst + m,
    )[t] by {
        assert(after.subrange(0, dst + m)[t] == after[t]);
        assert(data.subrange(dpos, dpos + dst + m)[t] == data[dpos + t]);
        if t < dst {
            assert(after.subrange(0, dst)[t] == before.subrange(0, dst)[t]);
            assert(before.subrange(0, dst)[t] == data.subrange(dpos, dpos + dst)[t]);
            assert(after.subrange(0, dst)[t] == after[t]);
            assert(data.subrange(dpos, dpos + dst)[t] == data[dpos + t]);
        } else {
            assert(after.subrange(dst, dst + m)[t - dst] == tmp.subrange(0, m)[t - dst]);
            assert(after.subrange(dst, dst + m)[t - dst] == after[t]);
            assert(tmp.subrange(0, m)[t - dst] == tmp[t - dst]);
            assert(tmp[t - dst] == data[dpos + dst + (t - dst)]);
            assert(dpos + dst + (t - dst) == dpos + t);
        }
    }
    assert(after.subrange(0, dst + m) =~= data.subrange(dpos, dpos + dst + m));
    assert forall|t: int|
        0 <= t < after.len() - (dst + m) implies #[trigger] after.subrange(
        dst + m,
        after.len() as int,
    )[t] == orig.subrange(dst + m, orig.len() as int)[t] by {
        assert(after.subrange(dst + m, before.len() as int)[t] == before.subrange(
            dst + m,
            before.len() as int,
        )[t]);
        assert(before.subrange(dst, before.len() as int)[t + m] == orig.subrange(
            dst,
            orig.len() as int,
        )[t + m]);
    }
    assert(after.subrange(dst + m, after.len() as int) =~= orig.subrange(
        dst + m,
        orig.len() as int,
    ));
}

impl File {
    /// Writing is refused: the filesystem is read-only.
    pub fn write<D: BlockDevice>(&mut self, _fs: &mut VFat<D>, _buf: &Vec<u8>) -> (r: Result<
        usize,
        IoError,
    >)
        ensures
            r == Err::<usize, IoError>(IoError::Unsupported),
    {
        Err(IoError::Unsupported)
    }

    /// Flushing is refused: the filesystem is read-only.
    pub fn flush(&mut self) -> (r: Result<(), IoError>)
        ensures
            r == Err::<(), IoError>(IoError::Unsupported),
    {
        Err(IoError::Unsupported)
    }

    /// Syncing is refused: the filesystem is read-only.
    pub fn sync(&mut self) -> (r: Result<(), IoError>)
        ensures
            r == Err::<(), IoError>(IoError::Unsupported),
    {
        Err(IoError::Unsupported)
    }

    /// Seeking is a planned extension; until it exists it is refused
    /// rather than silently misplacing the position.
    pub fn seek(&mut self, _pos: u64) -> (r: Result<u64, IoError>)
        ensures
            r == Err::<u64, IoError>(IoError::Unsupported),
            *final(self) == *old(self),
    {
        Err(IoError::Unsupported)
    }
}

/// Within a file's chain, the bytes of cluster `k` from offset `off`
/// are the file's bytes from position `k * cluster_bytes + off`.
proof fn lemma_cluster_slice_bytes<D: BlockDevice>(
    fs0: &VFat<D>,
    chain: Seq<Cluster>,
    k: int,
    off: int,
    m: int,
    pos: int,
    size: u32,
)
    requires
        fs0.wf(),
        0 <= k < chain.len(),
        pos == k * fs0.spec_cluster_bytes() + off,
        0 <= off,
        m >= 0,
        off + m <= fs0.spec_cluster_bytes(),
        pos + m <= size,
        size <= chain.len() * fs0.spec_cluster_bytes(),
    ensures
        forall|t: int|
            0 <= t < m ==> #[trigger] fs0.cluster_data(chain[k]).subrange(off, off + m)[t]
                == fs0.chain_data(chain).subrange(0, size as int)[pos + t],
{
    let cb = fs0.spec_cluster_bytes();
    fs0.lemma_chain_data_slice(chain, k);
    fs0.lemma_chain_data_len(chain);
    fs0.lemma_cluster_data_len(chain[k]);
    assert((k + 1) * cb <= chain.len() * cb) by (nonlinear_arith)
        requires
            k + 1 <= chain.len(),
            cb >= 0,
    ;
    assert((k + 1) * cb == k * cb + cb) by (nonlinear_arith);
    assert(0 <= k * cb) by (nonlinear_arith)
        requires
            k >= 0,
            cb >= 0,
    ;
    assert forall|t: int|
        0 <= t < m implies #[trigger] fs0.cluster_data(chain[k]).subrange(off, off + m)[t]
        == fs0.chain_data(chain).subrange(0, size as int)[pos + t] by {
        assert(fs0.cluster_data(chain[k]).subrange(off, off + m)[t] == fs0.cluster_data(
            chain[k],
        )[off + t]);
        assert(fs0.cluster_data(chain[k])[off + t] == fs0.chain_data(chain).subrange(
            k * cb,
            k * cb + cb,
        )[off + t]);
        assert(fs0.chain_data(chain).subrange(k * cb, k * cb + cb)[off + t] == fs0.chain_data(
            chain,
        )[k * cb + off + t]);
        assert(fs0.chain_data(chain).subrange(0, size as int)[pos + t] == fs0.chain_data(chain)[
            pos + t
        ]);
    }
}

} // verus!
