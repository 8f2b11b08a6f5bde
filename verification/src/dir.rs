//! The directory-entry stream: reads a directory's cluster chain as an
//! array of 32-byte records and reassembles VFAT long file names around
//! their 8.3 short-name entries.

use vstd::prelude::*;
use crate::cluster::Cluster;
use crate::device::{BlockDevice, IoError};
use crate::entry::{Dir, Entry, EntryModel};
use crate::file::File;
use crate::metadata::{Attributes, Date, Metadata, Time, Timestamp};
use crate::raw::{le16, le32, read_le16, read_le32};
use crate::vfat::VFat;

verus! {

// ---------------------------------------------------------------------
// Short-name checksum
// ---------------------------------------------------------------------
/// One step of the short-name checksum: rotate the running sum right by
/// one bit, then add the next byte, all modulo 256.
pub open spec fn checksum_step(sum: u8, b: u8) -> u8 {
    vstd::wrapping::u8_specs::wrapping_add(((sum & 1) << 7) | (sum >> 1), b)
}

/// The checksum of a short name: the step function folded over the 11
/// name-plus-extension bytes, starting from 0.
pub open spec fn spec_checksum(bytes: Seq<u8>) -> u8
    decreases bytes.len(),
{
    if bytes.len() == 0 {
        0
    } else {
        checksum_step(spec_checksum(bytes.drop_last()), bytes.last())
    }
}

// ---------------------------------------------------------------------
// Space/NUL-padded fields and short-name rendering
// ---------------------------------------------------------------------
/// The number of bytes of `s` before the first 0x00 or 0x20 (or all of
/// them, if neither occurs).
pub open spec fn pad_len(s: Seq<u8>) -> int
    decreases s.len(),
{
    if s.len() == 0 {
        0
    } else if s[0] == 0 || s[0] == 0x20 {
        0
    } else {
        1 + pad_len(s.drop_first())
    }
}

proof fn lemma_pad_len(s: Seq<u8>)
    ensures
        0 <= pad_len(s) <= s.len(),
        forall|i: int| 0 <= i < pad_len(s) ==> s[i] != 0 && s[i] != 0x20,
        pad_len(s) < s.len() ==> (s[pad_len(s)] == 0 || s[pad_len(s)] == 0x20),
    decreases s.len(),
{
    if s.len() > 0 && !(s[0] == 0 || s[0] == 0x20) {
        lemma_pad_len(s.drop_first());
        assert forall|i: int| 0 <= i < pad_len(s) implies s[i] != 0 && s[i] != 0x20 by {
            if i > 0 {
                assert(s.drop_first()[i - 1] == s[i]);
            }
        }
        if pad_len(s) < s.len() {
            assert(s.drop_first()[pad_len(s) - 1] == s[pad_len(s)]);
        }
    }
}

/// Each byte read as the character with that code point.
pub open spec fn chars_of(s: Seq<u8>) -> Seq<char> {
    Seq::new(s.len(), |i: int| s[i] as char)
}

/// The rendering of an 8.3 short name: the name bytes up to the first
/// NUL or space, and, for files whose extension's first byte is not a
/// space, a dot followed by the extension bytes truncated the same way.
/// A directory never gets an extension separator: directories cannot
/// carry a short-name extension.
pub open spec fn spec_short_name(name: Seq<u8>, ext: Seq<u8>, is_dir: bool) -> Seq<char> {
    let base = chars_of(name.subrange(0, pad_len(name)));
    if !is_dir && ext.len() > 0 && ext[0] != 0x20 {
        base + seq!['.'] + chars_of(ext.subrange(0, pad_len(ext)))
    } else {
        base
    }
}

// ---------------------------------------------------------------------
// UTF-16
// ---------------------------------------------------------------------
/// UTF-16 decoding: units outside the surrogate range stand for
/// themselves, a high surrogate followed by a low surrogate forms one
/// supplementary character, and anything else is invalid.
pub open spec fn utf16_decode(units: Seq<u16>) -> Option<Seq<char>>
    decreases units.len(),
{
    if units.len() == 0 {
        Some(Seq::empty())
    } else {
        let u = units[0];
        if u < 0xD800 || u >= 0xE000 {
            match utf16_decode(units.drop_first()) {
                Some(rest) => Some(seq![u as char] + rest),
                None => None,
            }
        } else if u < 0xDC00 && units.len() >= 2 && 0xDC00 <= units[1] && units[1] < 0xE000 {
            let c = 0x10000 + (u - 0xD800) * 0x400 + (units[1] - 0xDC00);
            match utf16_decode(units.skip(2)) {
                Some(rest) => Some(seq![c as char] + rest),
                None => None,
            }
        } else {
            None
        }
    }
}

/// The number of units of `s` before the first 0x0000 or 0xFFFF filler
/// (or all of them, if neither occurs).
pub open spec fn lfn_trim_len(s: Seq<u16>) -> int
    decreases s.len(),
{
    if s.len() == 0 {
        0
    } else if s[0] == 0 || s[0] == 0xFFFF {
        0
    } else {
        1 + lfn_trim_len(s.drop_first())
    }
}

proof fn lemma_lfn_trim_len(s: Seq<u16>)
    ensures
        0 <= lfn_trim_len(s) <= s.len(),
        forall|i: int| 0 <= i < lfn_trim_len(s) ==> s[i] != 0 && s[i] != 0xFFFF,
        lfn_trim_len(s) < s.len() ==> (s[lfn_trim_len(s)] == 0 || s[lfn_trim_len(s)] == 0xFFFF),
    decreases s.len(),
{
    if s.len() > 0 && !(s[0] == 0 || s[0] == 0xFFFF) {
        lemma_lfn_trim_len(s.drop_first());
        assert forall|i: int| 0 <= i < lfn_trim_len(s) implies s[i] != 0 && s[i] != 0xFFFF by {
            if i > 0 {
                assert(s.drop_first()[i - 1] == s[i]);
            }
        }
        if lfn_trim_len(s) < s.len() {
            assert(s.drop_first()[lfn_trim_len(s) - 1] == s[lfn_trim_len(s)]);
        }
    }
}

// ---------------------------------------------------------------------
// The long-file-name reassembly state machine
// ---------------------------------------------------------------------
/// The ghost state of the reassembly machine: either nothing is in
/// progress, or a group is being collected downwards (`next` is the
/// 1-based index the following slot must carry), or a group completed
/// with index 1 and awaits its regular entry.
pub enum LfnState {
    Idle,
    Pos { next: u8, checksum: u8, units: Seq<u16> },
    End { checksum: u8, units: Seq<u16> },
}

/// A fresh 260-unit name buffer.
pub open spec fn lfn_blank() -> Seq<u16> {
    Seq::new(260, |i: int| 0u16)
}

/// `buf` with the 13 units of slot `pos` (1-based) placed at their
/// offset.
pub open spec fn place13(buf: Seq<u16>, pos: u8, units: Seq<u16>) -> Seq<u16> {
    Seq::new(
        buf.len(),
        |i: int|
            if (pos - 1) * 13 <= i < (pos - 1) * 13 + 13 {
                units[i - (pos - 1) * 13]
            } else {
                buf[i]
            },
    )
}

/// One step of the reassembly machine on a long-file-name slot with
/// sequence byte `seq0`, checksum `ck` and 13 name units `units`. A
/// deleted (0xE5) or zero-sequence slot resets the machine. A slot with
/// the last-in-group bit 0x40 starts a fresh group if its index is
/// plausible. Any other slot continues the group in progress when its
/// index and checksum agree, and otherwise discards it.
pub open spec fn lfn_step(st: LfnState, seq0: u8, ck: u8, units: Seq<u16>) -> LfnState {
    if seq0 == 0 || seq0 == 0xE5 {
        LfnState::Idle
    } else {
        let pos = seq0 & 0x1F;
        if seq0 & 0x40 == 0x40 {
            if 1 <= pos <= 20 {
                let buf = place13(lfn_blank(), pos, units);
                if pos == 1 {
                    LfnState::End { checksum: ck, units: buf }
                } else {
                    LfnState::Pos { next: (pos - 1) as u8, checksum: ck, units: buf }
                }
            } else {
                LfnState::Idle
            }
        } else {
            match st {
                LfnState::Pos { next, checksum, units: have } => {
                    if pos == next && ck == checksum && 1 <= pos <= 20 {
                        let buf = place13(have, pos, units);
                        if pos == 1 {
                            LfnState::End { checksum: ck, units: buf }
                        } else {
                            LfnState::Pos { next: (pos - 1) as u8, checksum: ck, units: buf }
                        }
                    } else {
                        LfnState::Idle
                    }
                },
                _ => LfnState::Idle,
            }
        }
    }
}

/// The name a regular entry gets: the assembled long name when a
/// complete group with a matching checksum precedes it and its units
/// (truncated at the first 0x0000 or 0xFFFF filler) decode as UTF-16;
/// otherwise the 8.3 short name.
pub open spec fn lfn_name_or_short(
    st: LfnState,
    reg_ck: u8,
    name_b: Seq<u8>,
    ext_b: Seq<u8>,
    is_dir: bool,
) -> Seq<char> {
    match st {
        LfnState::End { checksum, units } => {
            if checksum == reg_ck {
                match utf16_decode(units.subrange(0, lfn_trim_len(units))) {
                    Some(cs) => cs,
                    None => spec_short_name(name_b, ext_b, is_dir),
                }
            } else {
                spec_short_name(name_b, ext_b, is_dir)
            }
        },
        _ => spec_short_name(name_b, ext_b, is_dir),
    }
}

// ---------------------------------------------------------------------
// 32-byte records
// ---------------------------------------------------------------------
/// Byte `k` of record `i`.
pub open spec fn rec_byte(bytes: Seq<u8>, i: int, k: int) -> u8 {
    bytes[32 * i + k]
}

/// Record discrimination: a record is a long-file-name slot exactly when
/// its attribute byte is 0x0F, its type byte is 0 and the 16-bit word at
/// offset 26 is 0.
pub open spec fn rec_is_lfn(bytes: Seq<u8>, i: int) -> bool {
    &&& rec_byte(bytes, i, 11) == 0x0F
    &&& rec_byte(bytes, i, 12) == 0
    &&& le16(bytes, 32 * i + 26) == 0
}

/// The 13 UTF-16 units of a long-file-name record, gathered from their
/// three discontinuous byte ranges.
pub open spec fn lfn_rec_units(bytes: Seq<u8>, i: int) -> Seq<u16> {
    Seq::new(
        13,
        |j: int|
            if j < 5 {
                le16(bytes, 32 * i + 1 + 2 * j)
            } else if j < 11 {
                le16(bytes, 32 * i + 14 + 2 * (j - 5))
            } else {
                le16(bytes, 32 * i + 28 + 2 * (j - 11))
            },
    )
}

/// The 8 name bytes of a regular record.
pub open spec fn reg_name_bytes(bytes: Seq<u8>, i: int) -> Seq<u8> {
    Seq::new(8, |k: int| bytes[32 * i + k])
}

/// The 3 extension bytes of a regular record.
pub open spec fn reg_ext_bytes(bytes: Seq<u8>, i: int) -> Seq<u8> {
    Seq::new(3, |k: int| bytes[32 * i + 8 + k])
}

/// The start cluster a regular record names: high word at offset 20, low
/// word at offset 26, reserved top bits masked off.
pub open spec fn reg_start_cluster(bytes: Seq<u8>, i: int) -> Cluster {
    Cluster(
        ((((le16(bytes, 32 * i + 20) as u32) << 16) | (le16(bytes, 32 * i + 26) as u32))
            & 0x0FFF_FFFF) as u32,
    )
}

/// The metadata a regular record carries.
pub open spec fn reg_metadata(bytes: Seq<u8>, i: int) -> Metadata {
    Metadata {
        attribs: Attributes(rec_byte(bytes, i, 11)),
        created: Timestamp {
            time: Time(le16(bytes, 32 * i + 14)),
            date: Date(le16(bytes, 32 * i + 16)),
        },
        accessed: Date(le16(bytes, 32 * i + 18)),
        modified: Timestamp {
            time: Time(le16(bytes, 32 * i + 22)),
            date: Date(le16(bytes, 32 * i + 24)),
        },
    }
}

/// What a valid regular record at `i` denotes, given the reassembly
/// state that precedes it.
pub open spec fn entry_model(bytes: Seq<u8>, i: int, st: LfnState) -> EntryModel {
    let name_b = reg_name_bytes(bytes, i);
    let ext_b = reg_ext_bytes(bytes, i);
    EntryModel {
        is_dir: rec_byte(bytes, i, 11) & 0x10 == 0x10,
        name: lfn_name_or_short(
            st,
            spec_checksum(name_b + ext_b),
            name_b,
            ext_b,
            rec_byte(bytes, i, 11) & 0x10 == 0x10,
        ),
        start: reg_start_cluster(bytes, i),
        metadata: reg_metadata(bytes, i),
        size: if rec_byte(bytes, i, 11) & 0x10 == 0x10 {
            0
        } else {
            le32(bytes, 32 * i + 28)
        },
    }
}

/// The entries denoted by the records of `bytes` from record `i` on,
/// with reassembly state `st`: long-file-name slots drive the state
/// machine, a first byte of 0 on a regular record ends the directory, a
/// deleted (0xE5) regular record is skipped and discards the state, and
/// every other regular record emits one entry.
pub open spec fn parse_from(bytes: Seq<u8>, i: int, st: LfnState) -> Seq<EntryModel>
    decreases bytes.len() / 32 - i,
{
    if i < 0 || i >= bytes.len() / 32 {
        Seq::empty()
    } else if rec_is_lfn(bytes, i) {
        parse_from(
            bytes,
            i + 1,
            lfn_step(st, rec_byte(bytes, i, 0), rec_byte(bytes, i, 13), lfn_rec_units(bytes, i)),
        )
    } else if rec_byte(bytes, i, 0) == 0 {
        Seq::empty()
    } else if rec_byte(bytes, i, 0) == 0xE5 {
        parse_from(bytes, i + 1, LfnState::Idle)
    } else {
        seq![entry_model(bytes, i, st)] + parse_from(bytes, i + 1, LfnState::Idle)
    }
}

/// The entries a directory whose chain holds `bytes` contains.
pub open spec fn parse_dir(bytes: Seq<u8>) -> Seq<EntryModel> {
    parse_from(bytes, 0, LfnState::Idle)
}

// ---------------------------------------------------------------------
// Case-insensitive name comparison
// ---------------------------------------------------------------------
/// ASCII lower-casing of one character; anything else is unchanged.
pub open spec fn lower_char(c: char) -> char {
    if 'A' <= c <= 'Z' {
        ((c as u8) + 0x20) as char
    } else {
        c
    }
}

/// Names compare equal ignoring ASCII case.
pub open spec fn eq_ignore_case(a: Seq<char>, b: Seq<char>) -> bool {
    a.len() == b.len() && forall|i: int|
        0 <= i < a.len() ==> lower_char(a[i]) == lower_char(b[i])
}

// ---------------------------------------------------------------------
// Trusted helpers around std
// ---------------------------------------------------------------------
/// Relies on char::from_u32: returns `Some` exactly for valid Unicode
/// scalar values (all code points except surrogates and values above
/// 0x10FFFF), and the returned character has that code point.
#[verifier::external_body]
fn char_from_u32(c: u32) -> (r: Option<char>)
    ensures
        r is Some <==> (c < 0xD800 || (0xE000 <= c && c <= 0x10FFFF)),
        r matches Some(ch) ==> ch == c as char,
{
    char::from_u32(c)
}

/// Relies on String::push: appends the given character to the end of
/// the string.
#[verifier::external_body]
pub(crate) fn push_char(s: &mut String, c: char)
    ensures
        final(s)@ == old(s)@ + seq![c],
{
    s.push(c);
}

/// What an optional decode looks like after some characters were already
/// produced.
pub open spec fn prefix_decoded(prefix: Seq<char>, rest: Option<Seq<char>>) -> Option<Seq<char>> {
    match rest {
        Some(r) => Some(prefix + r),
        None => None,
    }
}

/// Decodes UTF-16 units into a string, or reports invalid input (a lone
/// or misordered surrogate).
#[verifier::loop_isolation(false)]
fn utf16_to_string(units: &Vec<u16>) -> (r: Option<String>)
    ensures
        r is Some <==> utf16_decode(units@) is Some,
        r matches Some(s2) ==> Some(s2@) == utf16_decode(units@),
{
    let n = units.len();
    let mut out = String::new();
    let mut i: usize = 0;
    proof {
        assert(units@.skip(0) =~= units@);
        match utf16_decode(units@) {
            Some(r0) => {
                assert(Seq::<char>::empty() + r0 =~= r0);
            },
            None => {},
        }
    }
    while i < n
        invariant
            i <= n,
            utf16_decode(units@) == prefix_decoded(out@, utf16_decode(units@.skip(i as int))),
        decreases n - i,
    {
        let u = units[i];
        let ghost rest = units@.skip(i as int);
        proof {
            assert(rest[0] == units@[i as int]);
        }
        if u < 0xD800 || u >= 0xE000 {
            let ch = char_from_u32(u as u32).unwrap();
            push_char(&mut out, ch);
            proof {
                assert(rest.drop_first() =~= units@.skip(i + 1));
                assert(ch == u as char);
                match utf16_decode(units@.skip(i + 1)) {
                    Some(tail) => {
                        assert(utf16_decode(rest) == Some(seq![u as char] + tail));
                        assert(out@ + (seq![u as char] + tail) =~= (out@ + seq![u as char])
                            + tail);
                    },
                    None => {
                        assert(utf16_decode(rest) is None);
                    },
                }
            }
            i = i + 1;
        } else if u < 0xDC00 && i + 1 < n && units[i + 1] >= 0xDC00 && units[i + 1] < 0xE000 {
            let u2 = units[i + 1];
            let c: u32 = 0x10000 + (u as u32 - 0xD800) * 0x400 + (u2 as u32 - 0xDC00);
            let ch = char_from_u32(c).unwrap();
            push_char(&mut out, ch);
            proof {
                assert(rest.len() >= 2 && rest[1] == units@[i + 1]);
                assert(rest.skip(2) =~= units@.skip(i + 2));
                assert(ch == c as char);
                match utf16_decode(units@.skip(i + 2)) {
                    Some(tail) => {
                        assert(utf16_decode(rest) == Some(seq![c as char] + tail));
                        assert(out@ + (seq![c as char] + tail) =~= (out@ + seq![c as char])
                            + tail);
                    },
                    None => {
                        assert(utf16_decode(rest) is None);
                    },
                }
            }
            i = i + 2;
        } else {
            proof {
                assert(utf16_decode(rest) is None);
            }
            return None;
        }
    }
    proof {
        assert(units@.skip(n as int) =~= Seq::<u16>::empty());
        assert(utf16_decode(units@.skip(n as int)) == Some(Seq::<char>::empty()));
        assert(out@ + Seq::<char>::empty() =~= out@);
    }
    Some(out)
}

// ---------------------------------------------------------------------
// Decoded records
// ---------------------------------------------------------------------
/// A regular 8.3 directory record, decoded field by field.
#[derive(Clone, Copy, Debug)]
pub struct VFatRegularDirEntry {
    pub name: [u8; 8],
    pub ext: [u8; 3],
    pub attribs: u8,
    pub creation_decisecs: u8,
    pub created: Timestamp,
    pub accessed: Date,
    pub hi_cluster_part: u16,
    pub modified: Timestamp,
    pub lo_cluster_part: u16,
    pub size: u32,
}

/// A regular record's fields match record `i` of `bytes`.
pub open spec fn regular_matches(e: VFatRegularDirEntry, bytes: Seq<u8>, i: int) -> bool {
    &&& e.name@ == reg_name_bytes(bytes, i)
    &&& e.ext@ == reg_ext_bytes(bytes, i)
    &&& e.attribs == rec_byte(bytes, i, 11)
    &&& e.creation_decisecs == rec_byte(bytes, i, 13)
    &&& e.created == (Timestamp {
        time: Time(le16(bytes, 32 * i + 14)),
        date: Date(le16(bytes, 32 * i + 16)),
    })
    &&& e.accessed == Date(le16(bytes, 32 * i + 18))
    &&& e.hi_cluster_part == le16(bytes, 32 * i + 20)
    &&& e.modified == (Timestamp {
        time: Time(le16(bytes, 32 * i + 22)),
        date: Date(le16(bytes, 32 * i + 24)),
    })
    &&& e.lo_cluster_part == le16(bytes, 32 * i + 26)
    &&& e.size == le32(bytes, 32 * i + 28)
}

/// A long-file-name slot, decoded field by field.
#[derive(Clone, Copy, Debug)]
pub struct VFatLfnDirEntry {
    pub sequence_number: u8,
    pub name_part_1: [u16; 5],
    pub attribs: u8,
    pub dtype: u8,
    pub checksum: u8,
    pub name_part_2: [u16; 6],
    pub name_part_3: [u16; 2],
}

/// The 13 name units a long-file-name slot carries, in order.
pub open spec fn lfn_units_of(e: VFatLfnDirEntry) -> Seq<u16> {
    e.name_part_1@ + e.name_part_2@ + e.name_part_3@
}

/// A long-file-name slot's fields match record `i` of `bytes`.
pub open spec fn lfn_matches(e: VFatLfnDirEntry, bytes: Seq<u8>, i: int) -> bool {
    &&& e.sequence_number == rec_byte(bytes, i, 0)
    &&& e.attribs == rec_byte(bytes, i, 11)
    &&& e.dtype == rec_byte(bytes, i, 12)
    &&& e.checksum == rec_byte(bytes, i, 13)
    &&& lfn_units_of(e) == lfn_rec_units(bytes, i)
}

/// The fields shared by every record shape, read before the record is
/// classified.
#[derive(Clone, Copy, Debug)]
pub struct VFatUnknownDirEntry {
    pub seq: u8,
    pub attribs: u8,
    pub dtype: u8,
    pub clust_num: u16,
}

/// A classified directory record.
pub enum DirEntry {
    Regular(VFatRegularDirEntry),
    Lfn(VFatLfnDirEntry),
}

impl DirEntry {
    /// Classifies and decodes record `i` of `buf`: a record whose
    /// attribute byte is 0x0F, type byte 0 and cluster word 0 is a
    /// long-file-name slot; anything else is a regular entry.
    pub fn from(buf: &Vec<u8>, i: usize) -> (r: DirEntry)
        requires
            32 * i + 32 <= buf@.len(),
        ensures
            rec_is_lfn(buf@, i as int) ==> (r matches DirEntry::Lfn(e) && lfn_matches(
                e,
                buf@,
                i as int,
            )),
            !rec_is_lfn(buf@, i as int) ==> (r matches DirEntry::Regular(e) && regular_matches(
                e,
                buf@,
                i as int,
            )),
    {
        let n = buf.len();
        let base = 32 * i;
        let unknown = VFatUnknownDirEntry {
            seq: buf[base],
            attribs: buf[base + 11],
            dtype: buf[base + 12],
            clust_num: read_le16(buf, base + 26),
        };
        if unknown.attribs == 0x0F && unknown.dtype == 0 && unknown.clust_num == 0 {
            let e = VFatLfnDirEntry {
                sequence_number: buf[base],
                name_part_1: [
                    read_le16(buf, base + 1),
                    read_le16(buf, base + 3),
                    read_le16(buf, base + 5),
                    read_le16(buf, base + 7),
                    read_le16(buf, base + 9),
                ],
                attribs: buf[base + 11],
                dtype: buf[base + 12],
                checksum: buf[base + 13],
                name_part_2: [
                    read_le16(buf, base + 14),
                    read_le16(buf, base + 16),
                    read_le16(buf, base + 18),
                    read_le16(buf, base + 20),
                    read_le16(buf, base + 22),
                    read_le16(buf, base + 24),
                ],
                name_part_3: [read_le16(buf, base + 28), read_le16(buf, base + 30)],
            };
            proof {
                assert(lfn_units_of(e) =~= lfn_rec_units(buf@, i as int));
            }
            DirEntry::Lfn(e)
        } else {
            let e = VFatRegularDirEntry {
                name: [
                    buf[base],
                    buf[base + 1],
                    buf[base + 2],
                    buf[base + 3],
                    buf[base + 4],
                    buf[base + 5],
                    buf[base + 6],
                    buf[base + 7],
                ],
                ext: [buf[base + 8], buf[base + 9], buf[base + 10]],
                attribs: buf[base + 11],
                creation_decisecs: buf[base + 13],
                created: Timestamp {
                    time: Time(read_le16(buf, base + 14)),
                    date: Date(read_le16(buf, base + 16)),
                },
                accessed: Date(read_le16(buf, base + 18)),
                hi_cluster_part: read_le16(buf, base + 20),
                modified: Timestamp {
                    time: Time(read_le16(buf, base + 22)),
                    date: Date(read_le16(buf, base + 24)),
                },
                lo_cluster_part: read_le16(buf, base + 26),
                size: read_le32(buf, base + 28),
            };
            proof {
                assert(e.name@ =~= reg_name_bytes(buf@, i as int));
                assert(e.ext@ =~= reg_ext_bytes(buf@, i as int));
            }
            DirEntry::Regular(e)
        }
    }
}

// ---------------------------------------------------------------------
// The reassembly machine, executable side
// ---------------------------------------------------------------------
/// The executable reassembly state; its ghost image is [`LfnState`].
pub enum LfnEnt {
    Idle,
    Pos { next: u8, checksum: u8, units: Vec<u16> },
    End { checksum: u8, units: Vec<u16> },
}

impl View for LfnEnt {
    type V = LfnState;

    open spec fn view(&self) -> LfnState {
        match self {
            LfnEnt::Idle => LfnState::Idle,
            LfnEnt::Pos { next, checksum, units } => LfnState::Pos {
                next: *next,
                checksum: *checksum,
                units: units@,
            },
            LfnEnt::End { checksum, units } => LfnState::End {
                checksum: *checksum,
                units: units@,
            },
        }
    }
}

impl LfnEnt {
    /// Any in-progress name buffer holds exactly 260 units.
    pub open spec fn wf(&self) -> bool {
        match self {
            LfnEnt::Idle => true,
            LfnEnt::Pos { units, .. } => units@.len() == 260,
            LfnEnt::End { units, .. } => units@.len() == 260,
        }
    }

    /// Advances the machine over one long-file-name slot.
    pub fn next(self, lfn: &VFatLfnDirEntry) -> (r: LfnEnt)
        requires
            self.wf(),
        ensures
            r@ == lfn_step(self@, lfn.sequence_number, lfn.checksum, lfn_units_of(*lfn)),
            r.wf(),
    {
        let seq0 = lfn.sequence_number;
        if seq0 == 0 || seq0 == 0xE5 {
            return LfnEnt::Idle;
        }
        let pos = seq0 & 0x1F;
        let last = seq0 & 0x40 == 0x40;
        if last {
            if 1 <= pos && pos <= 20 {
                let blank: Vec<u16> = vec![0u16; 260];
                proof {
                    assert(blank@ =~= lfn_blank());
                }
                let fresh = lfn.extend_name(blank);
                if pos == 1 {
                    LfnEnt::End { checksum: lfn.checksum, units: fresh }
                } else {
                    LfnEnt::Pos { next: pos - 1, checksum: lfn.checksum, units: fresh }
                }
            } else {
                LfnEnt::Idle
            }
        } else {
            match self {
                LfnEnt::Pos { next, checksum, units } => {
                    if pos == next && lfn.checksum == checksum && 1 <= pos && pos <= 20 {
                        let grown = lfn.extend_name(units);
                        if pos == 1 {
                            LfnEnt::End { checksum: lfn.checksum, units: grown }
                        } else {
                            LfnEnt::Pos { next: pos - 1, checksum: lfn.checksum, units: grown }
                        }
                    } else {
                        LfnEnt::Idle
                    }
                },
                _ => LfnEnt::Idle,
            }
        }
    }
}

impl VFatLfnDirEntry {
    /// Writes this slot's 13 units into the name buffer at the offset
    /// its 1-based sequence index dictates.
    pub fn extend_name(&self, name: Vec<u16>) -> (r: Vec<u16>)
        requires
            name@.len() == 260,
            1 <= self.sequence_number & 0x1F,
            self.sequence_number & 0x1F <= 20,
        ensures
            r@ == place13(name@, (self.sequence_number & 0x1F) as u8, lfn_units_of(*self)),
    {
        let mut name = name;
        let ghost name0 = name@;
        let pos = self.sequence_number & 0x1F;
        let base = ((pos - 1) as usize) * 13;
        name[base] = self.name_part_1[0];
        name[base + 1] = self.name_part_1[1];
        name[base + 2] = self.name_part_1[2];
        name[base + 3] = self.name_part_1[3];
        name[base + 4] = self.name_part_1[4];
        name[base + 5] = self.name_part_2[0];
        name[base + 6] = self.name_part_2[1];
        name[base + 7] = self.name_part_2[2];
        name[base + 8] = self.name_part_2[3];
        name[base + 9] = self.name_part_2[4];
        name[base + 10] = self.name_part_2[5];
        name[base + 11] = self.name_part_3[0];
        name[base + 12] = self.name_part_3[1];
        proof {
            assert(name@ =~= place13(
                name0,
                (self.sequence_number & 0x1F) as u8,
                lfn_units_of(*self),
            ));
        }
        name
    }
}

// ---------------------------------------------------------------------
// Regular-entry helpers
// ---------------------------------------------------------------------
/// What a regular record denotes given the machine state before it. A
/// directory carries no size; a file carries the record's size field.
pub open spec fn reg_entry_model(e: VFatRegularDirEntry, st: LfnState) -> EntryModel {
    EntryModel {
        is_dir: e.attribs & 0x10 == 0x10,
        name: lfn_name_or_short(
            st,
            spec_checksum(e.name@ + e.ext@),
            e.name@,
            e.ext@,
            e.attribs & 0x10 == 0x10,
        ),
        start: Cluster(
            ((((e.hi_cluster_part as u32) << 16) | (e.lo_cluster_part as u32))
                & 0x0FFF_FFFF) as u32,
        ),
        metadata: Metadata {
            attribs: Attributes(e.attribs),
            created: e.created,
            accessed: e.accessed,
            modified: e.modified,
        },
        size: if e.attribs & 0x10 == 0x10 {
            0
        } else {
            e.size
        },
    }
}

impl VFatRegularDirEntry {
    /// The short-name checksum of this record's 11 name bytes.
    #[verifier::loop_isolation(false)]
    pub fn checksum(&self) -> (r: u8)
        ensures
            r == spec_checksum(self.name@ + self.ext@),
    {
        let ghost all = self.name@ + self.ext@;
        let mut sum: u8 = 0;
        let mut i: usize = 0;
        while i < 8
            invariant
                i <= 8,
                sum == spec_checksum(all.subrange(0, i as int)),
            decreases 8 - i,
        {
            sum = (((sum & 1) << 7) | (sum >> 1)).wrapping_add(self.name[i]);
            proof {
                assert(all.subrange(0, i + 1).drop_last() =~= all.subrange(0, i as int));
                assert(all.subrange(0, i + 1).last() == all[i as int]);
                assert(all[i as int] == self.name@[i as int]);
            }
            i = i + 1;
        }
        let mut j: usize = 0;
        while j < 3
            invariant
                j <= 3,
                sum == spec_checksum(all.subrange(0, 8 + j as int)),
            decreases 3 - j,
        {
            sum = (((sum & 1) << 7) | (sum >> 1)).wrapping_add(self.ext[j]);
            proof {
                assert(all.subrange(0, 8 + j + 1).drop_last() =~= all.subrange(0, 8 + j as int));
                assert(all.subrange(0, 8 + j + 1).last() == all[8 + j as int]);
                assert(all[8 + j as int] == self.ext@[j as int]);
            }
            j = j + 1;
        }
        proof {
            assert(all.subrange(0, 11) =~= all);
        }
        sum
    }

    /// Renders this record's 8.3 short name; a directory gets no
    /// extension separator.
    #[verifier::loop_isolation(false)]
    fn short_name(&self) -> (r: String)
        ensures
            r@ == spec_short_name(self.name@, self.ext@, self.attribs & 0x10 == 0x10),
    {
        let mut out = String::new();
        let mut i: usize = 0;
        while i < 8 && self.name[i] != 0 && self.name[i] != 0x20
            invariant
                i <= 8,
                forall|k: int| 0 <= k < i ==> self.name@[k] != 0 && self.name@[k] != 0x20,
                out@ == chars_of(self.name@.subrange(0, i as int)),
            decreases 8 - i,
        {
            let ch = char_from_u32(self.name[i] as u32).unwrap();
            push_char(&mut out, ch);
            proof {
                assert(out@ =~= chars_of(self.name@.subrange(0, i + 1)));
            }
            i = i + 1;
        }
        proof {
            lemma_pad_len(self.name@);
            assert(i == pad_len(self.name@));
        }
        if self.attribs & 0x10 != 0x10 && self.ext[0] != 0x20 {
            push_char(&mut out, '.');
            let ghost head = chars_of(self.name@.subrange(0, pad_len(self.name@))) + seq!['.'];
            proof {
                assert(out@ =~= head + chars_of(self.ext@.subrange(0, 0)));
            }
            let mut j: usize = 0;
            while j < 3 && self.ext[j] != 0 && self.ext[j] != 0x20
                invariant
                    j <= 3,
                    forall|k: int| 0 <= k < j ==> self.ext@[k] != 0 && self.ext@[k] != 0x20,
                    out@ == head + chars_of(self.ext@.subrange(0, j as int)),
                decreases 3 - j,
            {
                let ch = char_from_u32(self.ext[j] as u32).unwrap();
                push_char(&mut out, ch);
                proof {
                    assert(out@ =~= head + chars_of(self.ext@.subrange(0, j + 1)));
                }
                j = j + 1;
            }
            proof {
                lemma_pad_len(self.ext@);
                assert(j == pad_len(self.ext@));
                assert(out@ =~= spec_short_name(
                    self.name@,
                    self.ext@,
                    self.attribs & 0x10 == 0x10,
                ));
            }
        }
        out
    }

    /// The user-visible name of this record: the long name assembled in
    /// `lfn` when it is complete, checksum-matching and valid UTF-16,
    /// else the 8.3 short name.
    pub fn name(&self, lfn: &LfnEnt) -> (r: String)
        requires
            lfn.wf(),
        ensures
            r@ == lfn_name_or_short(
                lfn@,
                spec_checksum(self.name@ + self.ext@),
                self.name@,
                self.ext@,
                self.attribs & 0x10 == 0x10,
            ),
    {
        match lfn {
            LfnEnt::End { checksum, units } => {
                if *checksum == self.checksum() {
                    let trimmed = trim_units(units);
                    match utf16_to_string(&trimmed) {
                        Some(long) => {
                            return long;
                        },
                        None => {},
                    }
                }
            },
            _ => {},
        }
        self.short_name()
    }

    /// The metadata this record carries.
    pub fn metadata(&self) -> (r: Metadata)
        ensures
            r == (Metadata {
                attribs: Attributes(self.attribs),
                created: self.created,
                accessed: self.accessed,
                modified: self.modified,
            }),
    {
        Metadata {
            attribs: Attributes(self.attribs),
            created: self.created,
            accessed: self.accessed,
            modified: self.modified,
        }
    }

    /// The start cluster this record names, with the reserved high bits
    /// masked off.
    pub fn start_cluster(&self) -> (r: Cluster)
        ensures
            r == (Cluster(
                ((((self.hi_cluster_part as u32) << 16) | (self.lo_cluster_part as u32))
                    & 0x0FFF_FFFF) as u32,
            )),
            r.wf(),
    {
        let id = ((self.hi_cluster_part as u32) << 16) | (self.lo_cluster_part as u32);
        Cluster::from(id)
    }

    /// Builds the in-memory entry this record denotes: a directory when
    /// attribute bit 4 is set, else a file positioned at its start.
    pub fn into_entry(self, lfn_ent: &LfnEnt) -> (r: Entry)
        requires
            lfn_ent.wf(),
        ensures
            r@ == reg_entry_model(self, lfn_ent@),
    {
        let name = self.name(lfn_ent);
        let metadata = self.metadata();
        let start_cluster = self.start_cluster();
        if self.attribs & 0x10 == 0x10 {
            Entry::Dir(Dir { start_cluster, name, metadata })
        } else {
            Entry::File(File::new(start_cluster, name, metadata, self.size))
        }
    }
}

/// The units of an in-progress name up to the first 0x0000 or 0xFFFF
/// filler.
#[verifier::loop_isolation(false)]
fn trim_units(units: &Vec<u16>) -> (r: Vec<u16>)
    ensures
        r@ == units@.subrange(0, lfn_trim_len(units@)),
{
    let n = units.len();
    let mut r: Vec<u16> = Vec::new();
    let mut i: usize = 0;
    while i < n && units[i] != 0 && units[i] != 0xFFFF
        invariant
            i <= n,
            forall|k: int| 0 <= k < i ==> units@[k] != 0 && units@[k] != 0xFFFF,
            r@ == units@.subrange(0, i as int),
        decreases n - i,
    {
        r.push(units[i]);
        proof {
            assert(r@ =~= units@.subrange(0, i + 1));
        }
        i = i + 1;
    }
    proof {
        lemma_lfn_trim_len(units@);
        assert(i == lfn_trim_len(units@));
    }
    r
}

/// A regular record decoded from the bytes denotes the same entry as
/// the bytes themselves.
proof fn lemma_reg_model(e: VFatRegularDirEntry, bytes: Seq<u8>, i: int, st: LfnState)
    requires
        regular_matches(e, bytes, i),
    ensures
        reg_entry_model(e, st) == entry_model(bytes, i, st),
{
    assert(e.name@ == reg_name_bytes(bytes, i));
    assert(e.name@[0] == rec_byte(bytes, i, 0));
}

/// Parses a directory's bytes, taken as an array of 32-byte records,
/// into the entries they denote.
#[verifier::loop_isolation(false)]
fn parse_records(buf: &Vec<u8>) -> (r: Vec<Entry>)
    ensures
        r@.map_values(|e: Entry| e@) == parse_dir(buf@),
{
    let total = buf.len() / 32;
    let mut out: Vec<Entry> = Vec::new();
    let mut st = LfnEnt::Idle;
    let mut i: usize = 0;
    proof {
        assert(out@.map_values(|e: Entry| e@) =~= Seq::<EntryModel>::empty());
    }
    while i < total
        invariant
            i <= total,
            total == buf@.len() / 32,
            st.wf(),
            parse_dir(buf@) == out@.map_values(|e: Entry| e@) + parse_from(buf@, i as int, st@),
        decreases total - i,
    {
        proof {
            vstd::arithmetic::div_mod::lemma_fundamental_div_mod(buf@.len() as int, 32);
            assert(32 * ((i + 1) as int) <= 32 * (total as int)) by (nonlinear_arith)
                requires
                    i + 1 <= total as int,
            ;
            assert(32 * (total as int) <= buf@.len()) by (nonlinear_arith)
                requires
                    buf@.len() == 32 * (total as int) + (buf@.len() as int % 32),
                    buf@.len() as int % 32 >= 0,
            ;
        }
        let ghost st0 = st@;
        let ghost out0 = out@;
        let rec = DirEntry::from(buf, i);
        match rec {
            DirEntry::Lfn(lfn) => {
                st = st.next(&lfn);
                proof {
                    assert(rec_is_lfn(buf@, i as int));
                    assert(st@ == lfn_step(
                        st0,
                        rec_byte(buf@, i as int, 0),
                        rec_byte(buf@, i as int, 13),
                        lfn_rec_units(buf@, i as int),
                    ));
                    assert(parse_from(buf@, i as int, st0) == parse_from(buf@, i + 1, st@));
                }
            },
            DirEntry::Regular(reg) => {
                let first = reg.name[0];
                proof {
                    assert(!rec_is_lfn(buf@, i as int));
                    assert(reg.name@[0] == rec_byte(buf@, i as int, 0));
                }
                if first == 0 {
                    proof {
                        assert(parse_from(buf@, i as int, st0) =~= Seq::<EntryModel>::empty());
                        assert(parse_dir(buf@) =~= out@.map_values(|e: Entry| e@));
                    }
                    return out;
                } else if first == 0xE5 {
                    st = LfnEnt::Idle;
                    proof {
                        assert(parse_from(buf@, i as int, st0) == parse_from(
                            buf@,
                            i + 1,
                            LfnState::Idle,
                        ));
                    }
                } else {
                    let ent = reg.into_entry(&st);
                    proof {
                        lemma_reg_model(reg, buf@, i as int, st0);
                        assert(ent@ == entry_model(buf@, i as int, st0));
                    }
                    out.push(ent);
                    st = LfnEnt::Idle;
                    proof {
                        assert(out@.map_values(|e: Entry| e@) =~= out0.map_values(
                            |e: Entry| e@,
                        ).push(ent@));
                        assert(parse_from(buf@, i as int, st0) == seq![
                            entry_model(buf@, i as int, st0),
                        ] + parse_from(buf@, i + 1, LfnState::Idle));
                        assert(out0.map_values(|e: Entry| e@) + parse_from(buf@, i as int, st0)
                            =~= out@.map_values(|e: Entry| e@) + parse_from(
                            buf@,
                            i + 1,
                            LfnState::Idle,
                        ));
                    }
                }
            },
        }
        i = i + 1;
    }
    proof {
        assert(parse_from(buf@, total as int, st@) =~= Seq::<EntryModel>::empty());
        assert(parse_dir(buf@) =~= out@.map_values(|e: Entry| e@));
    }
    out
}

// ---------------------------------------------------------------------
// Directory iteration and lookup
// ---------------------------------------------------------------------
/// An iterator over a directory's entries. The whole listing is parsed
/// up front; `next` hands the entries out in on-disk order.
pub struct DirIter {
    pub entries: Vec<Entry>,
}

impl View for DirIter {
    type V = Seq<EntryModel>;

    open spec fn view(&self) -> Seq<EntryModel> {
        self.entries@.map_values(|e: Entry| e@)
    }
}

impl DirIter {
    /// The next entry of the listing, or `None` when it is exhausted.
    pub fn next(&mut self) -> (r: Option<Entry>)
        ensures
            old(self)@.len() == 0 ==> r is None && final(self)@ == old(self)@,
            old(self)@.len() > 0 ==> (r matches Some(e) && e@ == old(self)@[0] && final(self)@
                == old(self)@.drop_first()),
    {
        if self.entries.len() > 0 {
            let e = self.entries.remove(0);
            proof {
                assert(self.entries@.map_values(|e2: Entry| e2@) =~= old(
                    self,
                ).entries@.map_values(|e2: Entry| e2@).drop_first());
            }
            Some(e)
        } else {
            None
        }
    }
}

impl Dir {
    /// Parses this directory's cluster chain and returns an iterator
    /// over its entries. On success the iterator's contents are exactly
    /// what the chain's bytes parse to. A start cluster outside the data
    /// region is rejected as `InvalidData` before any device work;
    /// corruption mid-chain and device failures are reported as errors.
    pub fn entries<D: BlockDevice>(&self, fs: &mut VFat<D>) -> (r: Result<DirIter, IoError>)
        requires
            old(fs).wf(),
        ensures
            final(fs).wf(),
            final(fs).same_fs(old(fs)),
            !old(fs).cluster_in_range(self.start_cluster) ==> (r matches Err(e) && e
                == IoError::InvalidData),
            r matches Ok(it) ==> exists|s: Seq<Cluster>|
                #![trigger old(fs).is_chain(s)]
                {
                    &&& old(fs).is_chain(s)
                    &&& s[0] == self.start_cluster
                    &&& it@ == parse_dir(old(fs).chain_data(s))
                },
    {
        let id = self.start_cluster.id();
        if id > 0x0FFF_FFFF || id < 2 || (id - 2) as u64 >= fs.data_sectors {
            return Err(IoError::InvalidData);
        }
        let mut buf: Vec<u8> = Vec::new();
        let ghost fs0 = *fs;
        match fs.read_chain(self.start_cluster, &mut buf) {
            Ok(_) => {},
            Err(e) => {
                return Err(e);
            },
        }
        let found = parse_records(&buf);
        proof {
            let s = choose|s: Seq<Cluster>|
                {
                    &&& fs0.is_chain(s)
                    &&& s[0] == self.start_cluster
                    &&& buf@ == Seq::<u8>::empty() + fs0.chain_data(s)
                };
            assert(buf@ =~= fs0.chain_data(s));
        }
        Ok(DirIter { entries: found })
    }

    /// Finds the entry named `name` in this directory; comparison is
    /// ASCII-case-insensitive. Returns the first entry of the listing
    /// whose name matches, and `NotFound` when the whole listing was
    /// enumerated and nothing matched.
    #[verifier::loop_isolation(false)]
    pub fn find<D: BlockDevice>(&self, fs: &mut VFat<D>, name: &str) -> (r: Result<Entry, IoError>)
        requires
            old(fs).wf(),
        ensures
            final(fs).wf(),
            final(fs).same_fs(old(fs)),
            !old(fs).cluster_in_range(self.start_cluster) ==> (r matches Err(e) && e
                == IoError::InvalidData),
            r matches Ok(e) ==> exists|s: Seq<Cluster>|
                #![trigger old(fs).is_chain(s)]
                {
                    let es = parse_dir(old(fs).chain_data(s));
                    &&& old(fs).is_chain(s)
                    &&& s[0] == self.start_cluster
                    &&& exists|j: int|
                        {
                            &&& 0 <= j < es.len()
                            &&& e@ == es[j]
                            &&& eq_ignore_case(es[j].name, name@)
                            &&& forall|k: int|
                                0 <= k < j ==> !eq_ignore_case((#[trigger] es[k]).name, name@)
                        }
                },
    {
        let ghost fs0 = *fs;
        let mut it = match self.entries(fs) {
            Ok(it) => it,
            Err(e) => {
                return Err(e);
            },
        };
        let ghost s = choose|s: Seq<Cluster>|
            {
                &&& fs0.is_chain(s)
                &&& s[0] == self.start_cluster
                &&& it@ == parse_dir(fs0.chain_data(s))
            };
        let ghost es = parse_dir(fs0.chain_data(s));
        let ghost mut j: int = 0;
        loop
            invariant
                0 <= j <= es.len(),
                it@ == es.skip(j),
                forall|k: int| 0 <= k < j ==> !eq_ignore_case((#[trigger] es[k]).name, name@),
            decreases es.len() - j,
        {
            match it.next() {
                Some(e) => {
                    if eq_ignore_ascii_case_str(e.name(), name) {
                        proof {
                            assert(e@ == es[j]);
                        }
                        return Ok(e);
                    }
                    proof {
                        assert(e@ == es[j]);
                        assert(es.skip(j).drop_first() =~= es.skip(j + 1));
                        j = j + 1;
                    }
                },
                None => {
                    proof {
                        assert(j == es.len());
                    }
                    return Err(IoError::NotFound);
                },
            }
        }
    }
}

/// Compares two names ignoring ASCII case.
#[verifier::loop_isolation(false)]
fn eq_ignore_ascii_case_str(a: &str, b: &str) -> (r: bool)
    ensures
        r == eq_ignore_case(a@, b@),
{
    let na = a.unicode_len();
    let nb = b.unicode_len();
    if na != nb {
        return false;
    }
    let mut i: usize = 0;
    while i < na
        invariant
            i <= na,
            forall|k: int| 0 <= k < i ==> lower_char(a@[k]) == lower_char(b@[k]),
        decreases na - i,
    {
        let ca = lower_char_exec(a.get_char(i));
        let cb = lower_char_exec(b.get_char(i));
        if ca != cb {
            proof {
                assert(lower_char(a@[i as int]) != lower_char(b@[i as int]));
            }
            return false;
        }
        i = i + 1;
    }
    true
}

/// Lowercases one ASCII letter; every other character is unchanged.
fn lower_char_exec(c: char) -> (r: char)
    ensures
        r == lower_char(c),
{
    let v = c as u32;
    if v >= 0x41 && v <= 0x5A {
        char_from_u32(v + 0x20).unwrap()
    } else {
        c
    }
}

/// The index of the first entry of `es` whose name matches `name`
/// case-insensitively, or the listing's length when none does.
pub open spec fn first_match(es: Seq<EntryModel>, name: Seq<char>) -> int
    decreases es.len(),
{
    if es.len() == 0 {
        0
    } else if eq_ignore_case(es[0].name, name) {
        0
    } else {
        1 + first_match(es.drop_first(), name)
    }
}

/// What [`first_match`] returns: an in-bounds index of a matching entry
/// preceded only by non-matching ones, or the length.
pub proof fn lemma_first_match(es: Seq<EntryModel>, name: Seq<char>)
    ensures
        0 <= first_match(es, name) <= es.len(),
        first_match(es, name) < es.len() ==> eq_ignore_case(es[first_match(es, name)].name, name),
        forall|k: int|
            0 <= k < first_match(es, name) ==> !eq_ignore_case((#[trigger] es[k]).name, name),
    decreases es.len(),
{
    if es.len() > 0 && !eq_ignore_case(es[0].name, name) {
        lemma_first_match(es.drop_first(), name);
        let fm = first_match(es, name);
        assert forall|k: int| 0 <= k < fm implies !eq_ignore_case((#[trigger] es[k]).name, name) by {
            if k > 0 {
                assert(es.drop_first()[k - 1] == es[k]);
            }
        }
        if fm < es.len() {
            assert(es.drop_first()[fm - 1] == es[fm]);
        }
    }
}

/// Records `i .. i + m` of `bytes` form a complete long-file-name group
/// for a regular entry at `i + m`: the first-stored slot carries the
/// highest 1-based index `m` with the last-in-group bit, the following
/// slots count down to 1, and every slot bears the same checksum.
pub open spec fn lfn_group_at(bytes: Seq<u8>, i: int, m: int) -> bool {
    &&& 1 <= m <= 20
    &&& i >= 0
    &&& i + m < bytes.len() / 32
    &&& rec_is_lfn(bytes, i)
    &&& rec_byte(bytes, i, 0) == (m as u8) | 0x40
    &&& forall|u: int| i + 1 <= u < i + m ==> #[trigger] rec_is_lfn(bytes, u)
    &&& forall|u: int|
        i + 1 <= u < i + m ==> #[trigger] rec_byte(bytes, u, 0) == (m - (u - i)) as u8
    &&& forall|u: int|
        i + 1 <= u < i + m ==> #[trigger] rec_byte(bytes, u, 13) == rec_byte(bytes, i, 13)
    &&& !rec_is_lfn(bytes, i + m)
    &&& rec_byte(bytes, i + m, 0) != 0
    &&& rec_byte(bytes, i + m, 0) != 0xE5
}

/// The name buffer after slots `n, n - 1, .., 1`, stored at records
/// `j, j + 1, .., j + n - 1`, have each placed their 13 units into
/// `buf`.
pub open spec fn fold_units(bytes: Seq<u8>, j: int, n: int, buf: Seq<u16>) -> Seq<u16>
    decreases n,
{
    if n <= 0 {
        buf
    } else {
        fold_units(bytes, j + 1, n - 1, place13(buf, n as u8, lfn_rec_units(bytes, j)))
    }
}

/// The 260-unit buffer a complete group at records `i .. i + m`
/// assembles: every slot's units at the offset its index dictates.
pub open spec fn assembled_units(bytes: Seq<u8>, i: int, m: int) -> Seq<u16> {
    fold_units(
        bytes,
        i + 1,
        m - 1,
        place13(lfn_blank(), m as u8, lfn_rec_units(bytes, i)),
    )
}

/// Walking the slots `n .. 1` from the matching in-progress state
/// completes the group, folding each slot's units into the buffer.
proof fn lemma_lfn_tail_steps(bytes: Seq<u8>, j: int, n: int, ck: u8, buf: Seq<u16>)
    requires
        1 <= n <= 19,
        j >= 0,
        j + n <= bytes.len() / 32,
        buf.len() == 260,
        forall|u: int| j <= u < j + n ==> #[trigger] rec_is_lfn(bytes, u),
        forall|u: int| j <= u < j + n ==> #[trigger] rec_byte(bytes, u, 0) == (n - (u - j)) as u8,
        forall|u: int| j <= u < j + n ==> #[trigger] rec_byte(bytes, u, 13) == ck,
    ensures
        parse_from(bytes, j, LfnState::Pos { next: n as u8, checksum: ck, units: buf })
            == parse_from(
            bytes,
            j + n,
            LfnState::End { checksum: ck, units: fold_units(bytes, j, n, buf) },
        ),
    decreases n,
{
    assert(rec_is_lfn(bytes, j));
    assert(rec_byte(bytes, j, 0) == (n - (j - j)) as u8);
    assert(rec_byte(bytes, j, 13) == ck);
    let seq0 = rec_byte(bytes, j, 0);
    assert(seq0 == n as u8);
    assert(seq0 != 0 && seq0 != 0xE5);
    let nu = n as u8;
    assert(nu & 0x40 == 0 && nu & 0x1F == nu) by (bit_vector)
        requires
            1 <= nu <= 19,
    ;
    let stepped = lfn_step(
        LfnState::Pos { next: n as u8, checksum: ck, units: buf },
        seq0,
        ck,
        lfn_rec_units(bytes, j),
    );
    if n == 1 {
        assert(stepped == (LfnState::End {
            checksum: ck,
            units: place13(buf, 1, lfn_rec_units(bytes, j)),
        }));
    } else {
        assert(stepped == (LfnState::Pos {
            next: (n - 1) as u8,
            checksum: ck,
            units: place13(buf, n as u8, lfn_rec_units(bytes, j)),
        }));
        assert forall|u: int|
            j + 1 <= u < j + 1 + (n - 1) implies #[trigger] rec_byte(bytes, u, 0) == ((n - 1) - (u
            - (j + 1))) as u8 by {
            assert(rec_byte(bytes, u, 0) == (n - (u - j)) as u8);
            assert((n - (u - j)) == ((n - 1) - (u - (j + 1))));
        }
        lemma_lfn_tail_steps(
            bytes,
            j + 1,
            n - 1,
            ck,
            place13(buf, n as u8, lfn_rec_units(bytes, j)),
        );
    }
}

/// A complete long-file-name group, stored highest index
/// first and bearing one checksum throughout, drives the reassembly
/// machine — whatever state it starts in — into the completed state
/// carrying exactly the units the slots spell out; the regular entry
/// that follows is emitted with that state, so by the naming rule it
/// takes the assembled UTF-16 name exactly when the group's checksum
/// matches its short name's, and falls back to the 8.3 short name when
/// it does not.
pub proof fn lemma_lfn_group(bytes: Seq<u8>, i: int, m: int, st: LfnState)
    requires
        lfn_group_at(bytes, i, m),
    ensures
        parse_from(bytes, i, st) == seq![
            entry_model(
                bytes,
                i + m,
                LfnState::End {
                    checksum: rec_byte(bytes, i, 13),
                    units: assembled_units(bytes, i, m),
                },
            ),
        ] + parse_from(bytes, i + m + 1, LfnState::Idle),
        rec_byte(bytes, i, 13) != spec_checksum(
            reg_name_bytes(bytes, i + m) + reg_ext_bytes(bytes, i + m),
        ) ==> parse_from(bytes, i, st)[0].name == spec_short_name(
            reg_name_bytes(bytes, i + m),
            reg_ext_bytes(bytes, i + m),
            rec_byte(bytes, i + m, 11) & 0x10 == 0x10,
        ),
{
    let ck = rec_byte(bytes, i, 13);
    let seq0 = rec_byte(bytes, i, 0);
    assert(seq0 == (m as u8) | 0x40);
    let mu = m as u8;
    assert((mu | 0x40) != 0 && (mu | 0x40) != 0xE5 && (mu | 0x40) & 0x40 == 0x40 && (mu | 0x40)
        & 0x1F == mu) by (bit_vector)
        requires
            1 <= mu <= 20,
    ;
    let stepped = lfn_step(st, seq0, ck, lfn_rec_units(bytes, i));
    let buf1 = place13(lfn_blank(), m as u8, lfn_rec_units(bytes, i));
    if m == 1 {
        assert(stepped == (LfnState::End { checksum: ck, units: buf1 }));
        assert(assembled_units(bytes, i, 1) == buf1);
    } else {
        assert(stepped == (LfnState::Pos { next: (m - 1) as u8, checksum: ck, units: buf1 }));
        assert forall|u: int|
            i + 1 <= u < i + 1 + (m - 1) implies #[trigger] rec_byte(bytes, u, 0) == ((m - 1) - (u
            - (i + 1))) as u8 by {
            assert(rec_byte(bytes, u, 0) == (m - (u - i)) as u8);
            assert((m - (u - i)) == ((m - 1) - (u - (i + 1))));
        }
        assert(buf1.len() == 260);
        lemma_lfn_tail_steps(bytes, i + 1, m - 1, ck, buf1);
    }
    let end_state = LfnState::End { checksum: ck, units: assembled_units(bytes, i, m) };
    assert(parse_from(bytes, i + m, end_state) == seq![entry_model(bytes, i + m, end_state)]
        + parse_from(bytes, i + m + 1, LfnState::Idle));
    assert(parse_from(bytes, i, st)[0] == entry_model(bytes, i + m, end_state));
}

/// Case-insensitive lookup cannot tell two queries apart from each other
/// that agree up to ASCII case: against every name in a listing, both
/// match or both fail, so a lookup by either returns the same entry.
pub proof fn lemma_lookup_case_insensitive(es: Seq<EntryModel>, a: Seq<char>, b: Seq<char>)
    requires
        eq_ignore_case(a, b),
    ensures
        forall|j: int|
            0 <= j < es.len() ==> (eq_ignore_case((#[trigger] es[j]).name, a) == eq_ignore_case(
                es[j].name,
                b,
            )),
{
    assert forall|j: int|
        0 <= j < es.len() implies (eq_ignore_case((#[trigger] es[j]).name, a) == eq_ignore_case(
        es[j].name,
        b,
    )) by {
        let n = es[j].name;
        if eq_ignore_case(n, a) {
            assert forall|i: int| 0 <= i < n.len() implies lower_char(n[i]) == lower_char(
                b[i],
            ) by {
                assert(lower_char(n[i]) == lower_char(a[i]));
                assert(lower_char(a[i]) == lower_char(b[i]));
            }
        }
        if eq_ignore_case(n, b) {
            assert forall|i: int| 0 <= i < n.len() implies lower_char(n[i]) == lower_char(
                a[i],
            ) by {
                assert(lower_char(n[i]) == lower_char(b[i]));
                assert(lower_char(a[i]) == lower_char(b[i]));
            }
        }
    }
}

} // verus!
