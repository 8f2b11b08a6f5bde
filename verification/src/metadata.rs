//! Directory-entry metadata: attributes, dates and times as stored in
//! FAT32 on-disk structures.

use vstd::prelude::*;

verus! {

/// A date as represented in FAT32 on-disk structures: bits 15..9 hold the
/// year counted from 1980, bits 8..5 the month, bits 4..0 the day.
#[derive(Debug, Copy, Clone, PartialEq, Eq, Structural)]
pub struct Date(pub u16);

/// Time as represented in FAT32 on-disk structures: bits 15..11 hold the
/// hour, bits 10..5 the minute, bits 4..0 the second in two-second units.
#[derive(Debug, Copy, Clone, PartialEq, Eq, Structural)]
pub struct Time(pub u16);

/// File attributes as represented in FAT32 on-disk structures.
#[derive(Debug, Copy, Clone, PartialEq, Eq, Structural)]
pub struct Attributes(pub u8);

/// A structure containing a date and time.
#[derive(Debug, Copy, Clone, PartialEq, Eq, Structural)]
pub struct Timestamp {
    pub time: Time,
    pub date: Date,
}

/// Metadata for a directory entry.
#[derive(Debug, Copy, Clone, PartialEq, Eq, Structural)]
pub struct Metadata {
    pub attribs: Attributes,
    pub created: Timestamp,
    pub accessed: Date,
    pub modified: Timestamp,
}

impl Timestamp {
    /// The calendar year, counted from 1980.
    pub fn year(&self) -> (r: usize)
        ensures
            r == 1980 + (self.date.0 >> 9),
    {
        proof {
            let d = self.date.0;
            assert(d >> 9 <= 0x7F) by (bit_vector);
        }
        1980 + (self.date.0 >> 9) as usize
    }

    /// The month of the year, 1 through 12 on well-formed timestamps.
    pub fn month(&self) -> (r: u8)
        ensures
            r == (self.date.0 >> 5) & 0x0F,
    {
        proof {
            let d = self.date.0;
            assert((d >> 5) & 0x0F <= 0x0F) by (bit_vector);
        }
        ((self.date.0 >> 5) & 0x0F) as u8
    }

    /// The day of the month, 1 through 31 on well-formed timestamps.
    pub fn day(&self) -> (r: u8)
        ensures
            r == self.date.0 & 0x1F,
    {
        proof {
            let d = self.date.0;
            assert(d & 0x1F <= 0x1F) by (bit_vector);
        }
        (self.date.0 & 0x1F) as u8
    }

    /// The hour of the day, 0 through 23 on well-formed timestamps.
    pub fn hour(&self) -> (r: u8)
        ensures
            r == (self.time.0 >> 11) & 0x3F,
    {
        proof {
            let t = self.time.0;
            assert((t >> 11) & 0x3F <= 0x3F) by (bit_vector);
        }
        ((self.time.0 >> 11) & 0x3F) as u8
    }

    /// The minute of the hour, 0 through 59 on well-formed timestamps.
    pub fn minute(&self) -> (r: u8)
        ensures
            r == (self.time.0 >> 5) & 0x3F,
    {
        proof {
            let t = self.time.0;
            assert((t >> 5) & 0x3F <= 0x3F) by (bit_vector);
        }
        ((self.time.0 >> 5) & 0x3F) as u8
    }

    /// The second of the minute, always even: the on-disk field counts
    /// two-second units.
    pub fn second(&self) -> (r: u8)
        ensures
            r == (self.time.0 & 0x1F) * 2,
    {
        proof {
            let t = self.time.0;
            assert((t & 0x1F) * 2 <= 0x3E) by (bit_vector);
        }
        ((self.time.0 & 0x1F) * 2) as u8
    }
}

impl Metadata {
    /// Whether the read-only attribute bit is set.
    pub fn read_only(&self) -> (r: bool)
        ensures
            r == (self.attribs.0 & 0x01 != 0),
    {
        (self.attribs.0 & 0x01) != 0
    }

    /// Whether the hidden attribute bit is set.
    pub fn hidden(&self) -> (r: bool)
        ensures
            r == (self.attribs.0 & 0x02 != 0),
    {
        (self.attribs.0 & 0x02) != 0
    }

    /// The creation timestamp.
    pub fn created(&self) -> (r: Timestamp)
        ensures
            r == self.created,
    {
        self.created
    }

    /// The last-access date, widened to a timestamp with a zero time of
    /// day: the on-disk format records no access time.
    pub fn accessed(&self) -> (r: Timestamp)
        ensures
            r == (Timestamp { date: self.accessed, time: Time(0) }),
    {
        Timestamp { date: self.accessed, time: Time(0) }
    }

    /// The last-modification timestamp.
    pub fn modified(&self) -> (r: Timestamp)
        ensures
            r == self.modified,
    {
        self.modified
    }
}

} // verus!
