//! Little-endian decoding of on-disk integers.

use vstd::prelude::*;

verus! {

/// The 16-bit little-endian integer held at offset `i` of `s`.
pub open spec fn le16(s: Seq<u8>, i: int) -> u16 {
    (s[i] + s[i + 1] * 0x100) as u16
}

/// The 32-bit little-endian integer held at offset `i` of `s`.
pub open spec fn le32(s: Seq<u8>, i: int) -> u32 {
    (s[i] + s[i + 1] * 0x100 + s[i + 2] * 0x1_0000 + s[i + 3] * 0x100_0000) as u32
}

/// Reads the 16-bit little-endian integer at offset `i` of `buf`.
pub fn read_le16(buf: &Vec<u8>, i: usize) -> (r: u16)
    requires
        i + 1 < buf@.len(),
    ensures
        r == le16(buf@, i as int),
{
    let n = buf.len();
    let lo = buf[i] as u16;
    let hi = buf[i + 1] as u16;
    lo + hi * 0x100
}

/// Reads the 32-bit little-endian integer at offset `i` of `buf`.
pub fn read_le32(buf: &Vec<u8>, i: usize) -> (r: u32)
    requires
        i + 3 < buf@.len(),
    ensures
        r == le32(buf@, i as int),
{
    let n = buf.len();
    let b0 = buf[i] as u32;
    let b1 = buf[i + 1] as u32;
    let b2 = buf[i + 2] as u32;
    let b3 = buf[i + 3] as u32;
    b0 + b1 * 0x100 + b2 * 0x1_0000 + b3 * 0x100_0000
}

/// Overwrites `dst` from position `dst_pos` on with the bytes of `src`
/// from position `from` on, stopping at the end of whichever runs out
/// first; returns how many bytes were copied. The length of `dst` and the
/// bytes outside the written window are unchanged.
#[verifier::loop_isolation(false)]
pub fn copy_into(dst: &mut Vec<u8>, dst_pos: usize, src: &Vec<u8>, from: usize) -> (n: usize)
    requires
        dst_pos <= old(dst)@.len(),
        from <= src@.len(),
    ensures
        n == if old(dst)@.len() - dst_pos <= src@.len() - from {
            old(dst)@.len() - dst_pos
        } else {
            src@.len() - from
        },
        final(dst)@.len() == old(dst)@.len(),
        final(dst)@.subrange(0, dst_pos as int) == old(dst)@.subrange(0, dst_pos as int),
        final(dst)@.subrange(dst_pos as int, dst_pos + n) == src@.subrange(from as int, from + n),
        final(dst)@.subrange(dst_pos + n, old(dst)@.len() as int) == old(dst)@.subrange(
            dst_pos + n,
            old(dst)@.len() as int,
        ),
{
    let dn = dst.len();
    let sn = src.len();
    let mut i: usize = 0;
    while dst_pos + i < dn && from + i < sn
        invariant
            i <= dn - dst_pos,
            i <= sn - from,
            dst@.len() == old(dst)@.len(),
            forall|j: int|
                0 <= j < dn && !(dst_pos <= j < dst_pos + i) ==> dst@[j] == old(dst)@[j],
            forall|j: int| 0 <= j < i ==> #[trigger] dst@[dst_pos + j] == src@[from + j],
        decreases dn - i,
    {
        dst[dst_pos + i] = src[from + i];
        i = i + 1;
    }
    proof {
        assert(dst@.subrange(0, dst_pos as int) =~= old(dst)@.subrange(0, dst_pos as int));
        assert forall|j2: int|
            0 <= j2 < i implies #[trigger] dst@.subrange(dst_pos as int, dst_pos + i)[j2]
            == src@.subrange(
            from as int,
            from + i,
        )[j2] by {
            assert(dst@[dst_pos + j2] == src@[from + j2]);
        }
        assert(dst@.subrange(dst_pos as int, dst_pos + i) =~= src@.subrange(
            from as int,
            from + i,
        ));
        assert(dst@.subrange(dst_pos + i, old(dst)@.len() as int) =~= old(dst)@.subrange(
            dst_pos + i,
            old(dst)@.len() as int,
        ));
    }
    i
}

/// Appends every byte of `src` to `dst`.
pub fn append_bytes(dst: &mut Vec<u8>, src: &Vec<u8>)
    ensures
        final(dst)@ == old(dst)@ + src@,
{
    let n = src.len();
    let mut j: usize = 0;
    while j < n
        invariant
            j <= n,
            n == src@.len(),
            dst@ == old(dst)@ + src@.subrange(0, j as int),
        decreases n - j,
    {
        dst.push(src[j]);
        proof {
            assert(dst@ =~= old(dst)@ + src@.subrange(0, j + 1));
        }
        j = j + 1;
    }
    proof {
        assert(dst@ =~= old(dst)@ + src@);
    }
}

/// Returns a fresh vector holding bytes `start..start + len` of `src`.
pub fn copy_range(src: &Vec<u8>, start: usize, len: usize) -> (r: Vec<u8>)
    requires
        start + len <= src@.len(),
    ensures
        r@ == src@.subrange(start as int, start + len),
{
    let n = src.len();
    let mut r: Vec<u8> = Vec::new();
    let mut j: usize = 0;
    while j < len
        invariant
            j <= len,
            n == src@.len(),
            start + len <= n,
            r@ == src@.subrange(start as int, start + j),
        decreases len - j,
    {
        r.push(src[start + j]);
        proof {
            assert(r@ =~= src@.subrange(start as int, start + j + 1));
        }
        j = j + 1;
    }
    r
}

/// Returns a fresh vector holding the same bytes as `src`.
pub fn copy_bytes(src: &Vec<u8>) -> (r: Vec<u8>)
    ensures
        r@ == src@,
{
    let mut r: Vec<u8> = Vec::new();
    append_bytes(&mut r, src);
    proof {
        assert(r@ =~= src@);
    }
    r
}


} // verus!
