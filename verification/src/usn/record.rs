//! Walking the record buffers that the change journal and the MFT
//! enumeration return.
//!
//! A buffer is a leading 8-byte value followed by records, each padded to a
//! multiple of 8 bytes. Versions 2 and 3 are read, version 4 and unknown
//! versions are counted and skipped.

use crate::le;
use crate::text;
use crate::types::Frn;
use crate::wtf8;
use vstd::prelude::*;
use vstd::string::StringExecFns;

verus! {

pub const USN_REASON_DATA_OVERWRITE: u32 = 0x0000_0001;

pub const USN_REASON_DATA_EXTEND: u32 = 0x0000_0002;

pub const USN_REASON_DATA_TRUNCATION: u32 = 0x0000_0004;

pub const USN_REASON_FILE_CREATE: u32 = 0x0000_0100;

pub const USN_REASON_FILE_DELETE: u32 = 0x0000_0200;

pub const USN_REASON_RENAME_OLD_NAME: u32 = 0x0000_1000;

pub const USN_REASON_RENAME_NEW_NAME: u32 = 0x0000_2000;

pub const USN_REASON_BASIC_INFO_CHANGE: u32 = 0x0000_8000;

pub const USN_REASON_HARD_LINK_CHANGE: u32 = 0x0001_0000;

pub const USN_REASON_CLOSE: u32 = 0x8000_0000;

pub const FILE_ATTRIBUTE_DIRECTORY: u32 = 0x10;

/// One parsed record.
#[derive(Clone, Debug, PartialEq, Eq)]
pub struct ParsedUsnRecord {
    pub major_version: u16,
    pub frn: Frn,
    pub parent_frn: Frn,
    pub usn: i64,
    pub timestamp_ft: i64,
    pub reason: u32,
    pub attributes: u32,
    /// The name in WTF-8.
    pub name: Vec<u8>,
    /// The name holds an unpaired surrogate.
    pub name_lossy: bool,
}

/// What a record says.
#[verifier::ext_equal]
pub ghost struct RecordModel {
    pub major_version: u16,
    pub frn: Frn,
    pub parent_frn: Frn,
    pub usn: i64,
    pub timestamp_ft: i64,
    pub reason: u32,
    pub attributes: u32,
    pub name: Seq<u8>,
    pub name_lossy: bool,
}

/// The attributes are those of a directory.
pub open spec fn directory(attributes: u32) -> bool {
    attributes & FILE_ATTRIBUTE_DIRECTORY != 0
}

impl ParsedUsnRecord {
    pub open spec fn model(&self) -> RecordModel {
        RecordModel {
            major_version: self.major_version,
            frn: self.frn,
            parent_frn: self.parent_frn,
            usn: self.usn,
            timestamp_ft: self.timestamp_ft,
            reason: self.reason,
            attributes: self.attributes,
            name: self.name@,
            name_lossy: self.name_lossy,
        }
    }

    pub fn is_dir(&self) -> (r: bool)
        ensures
            r == directory(self.attributes),
    {
        self.attributes & FILE_ATTRIBUTE_DIRECTORY != 0
    }
}

/// A buffer that does not hold what it should.
#[derive(Clone, Copy, Debug, PartialEq, Eq, Structural)]
pub enum WalkError {
    ZeroRecordLength { offset: usize },
    RecordOverrun { offset: usize },
    TruncatedHeader { offset: usize },
    MalformedName { offset: usize },
}

/// The words for an error, around the offset.
pub open spec fn error_words(e: WalkError) -> Seq<char> {
    match e {
        WalkError::ZeroRecordLength { .. } => " has RecordLength == 0 (corrupt buffer)"@,
        WalkError::RecordOverrun { .. } => " overruns the buffer end"@,
        WalkError::TruncatedHeader { .. } => " is too short for its version's fixed header"@,
        WalkError::MalformedName { .. } => " has a malformed file-name span"@,
    }
}

impl WalkError {
    /// Where the record is.
    pub open spec fn at(self) -> usize {
        match self {
            WalkError::ZeroRecordLength { offset } => offset,
            WalkError::RecordOverrun { offset } => offset,
            WalkError::TruncatedHeader { offset } => offset,
            WalkError::MalformedName { offset } => offset,
        }
    }

    /// The error in words.
    pub fn message(&self) -> (s: String)
        ensures
            s@ == "USN record at offset "@ + text::decimal(self.at() as nat) + error_words(*self),
    {
        let (offset, words) = match self {
            WalkError::ZeroRecordLength { offset } => (
                *offset,
                " has RecordLength == 0 (corrupt buffer)",
            ),
            WalkError::RecordOverrun { offset } => (*offset, " overruns the buffer end"),
            WalkError::TruncatedHeader { offset } => (
                *offset,
                " is too short for its version's fixed header",
            ),
            WalkError::MalformedName { offset } => (*offset, " has a malformed file-name span"),
        };
        let mut s = String::from_str("USN record at offset ");
        text::push_decimal(&mut s, offset as u64);
        s.append(words);
        s
    }
}

/// How many records were passed over.
#[derive(Clone, Copy, Debug, PartialEq, Eq, Structural)]
pub struct SkipCounts {
    pub v4: u32,
    pub unknown_version: u32,
}

impl Default for SkipCounts {
    fn default() -> (c: SkipCounts)
        ensures
            c.v4 == 0,
            c.unknown_version == 0,
    {
        SkipCounts { v4: 0, unknown_version: 0 }
    }
}

/// A walked enumeration buffer.
#[derive(Debug)]
pub struct EnumWalk {
    /// Where the next enumeration starts.
    pub next_start_frn: u64,
    pub records: Vec<ParsedUsnRecord>,
    pub skipped: SkipCounts,
}

/// A walked journal buffer.
#[derive(Debug)]
pub struct JournalWalk {
    /// Where the next read starts.
    pub next_usn: i64,
    pub records: Vec<ParsedUsnRecord>,
    pub skipped: SkipCounts,
}

/// What a walk found.
#[verifier::ext_equal]
pub ghost struct Found {
    pub records: Seq<RecordModel>,
    pub v4: nat,
    pub unknown_version: nat,
}

pub open spec fn record_models(v: Seq<ParsedUsnRecord>) -> Seq<RecordModel> {
    v.map_values(|r: ParsedUsnRecord| r.model())
}

/// The name of a record, with whether it holds an unpaired surrogate.
pub open spec fn name_at(rec: Seq<u8>, at: int, len: int) -> (Seq<u8>, bool) {
    let units = le::units(rec, at, len);
    (wtf8::wtf8_of_units(units), wtf8::has_lone(units))
}

/// The fixed header of a version 3 record, or of a version 2 one.
pub open spec fn header_len(v3: bool) -> int {
    if v3 {
        76
    } else {
        60
    }
}

/// What the bytes of one record say. Version 3 has 128-bit file references,
/// of which the low halves are used.
#[verifier::opaque]
pub open spec fn record_in(rec: Seq<u8>, v3: bool, offset: usize) -> Result<
    RecordModel,
    WalkError,
> {
    let parent: int = if v3 {
        24
    } else {
        16
    };
    let usn: int = if v3 {
        40
    } else {
        24
    };
    let name_len = le::le(rec, usn + 32, 2) as int;
    let name_off = le::le(rec, usn + 34, 2) as int;
    if rec.len() < header_len(v3) {
        Err(WalkError::TruncatedHeader { offset })
    } else if name_len % 2 != 0 || name_off < header_len(v3) || name_off + name_len > rec.len() {
        Err(WalkError::MalformedName { offset })
    } else {
        Ok(
            RecordModel {
                major_version: if v3 {
                    3
                } else {
                    2
                },
                frn: Frn(le::le(rec, 8, 8) as u64),
                parent_frn: Frn(le::le(rec, parent, 8) as u64),
                usn: le::signed(le::le(rec, usn, 8)) as i64,
                timestamp_ft: le::signed(le::le(rec, usn + 8, 8)) as i64,
                reason: le::le(rec, usn + 16, 4) as u32,
                attributes: le::le(rec, usn + 28, 4) as u32,
                name: name_at(rec, name_off, name_len).0,
                name_lossy: name_at(rec, name_off, name_len).1,
            },
        )
    }
}

/// The next multiple of eight.
#[verifier::opaque]
pub open spec fn align8(n: int) -> int {
    (n + 7) / 8 * 8
}

proof fn lemma_align8(off: int, end: int)
    requires
        off % 8 == 0,
        off < end,
    ensures
        align8(end) % 8 == 0,
        off + 8 <= align8(end),
        end <= align8(end) < end + 8,
{
    reveal(align8);
}

/// The next multiple of eight, if there is one.
fn aligned(end: usize) -> (r: Option<usize>)
    ensures
        match r {
            Some(x) => x == align8(end as int),
            None => align8(end as int) > usize::MAX,
        },
{
    reveal(align8);
    let over = end % 8;
    let pad: usize = if over == 0 {
        0
    } else {
        8 - over
    };
    end.checked_add(pad)
}

/// What is found with the record at `off`, beyond what was found before.
pub open spec fn with_record(buf: Seq<u8>, off: int, found: Found) -> Result<Found, WalkError> {
    let len = le::le(buf, off, 4) as int;
    let version = le::le(buf, off + 4, 2);
    if len == 0 {
        Err(WalkError::ZeroRecordLength { offset: off as usize })
    } else if off + len > buf.len() {
        Err(WalkError::RecordOverrun { offset: off as usize })
    } else if version == 2 || version == 3 {
        match record_in(buf.subrange(off, off + len), version == 3, off as usize) {
            Ok(r) => Ok(Found { records: found.records.push(r), ..found }),
            Err(e) => Err(e),
        }
    } else if version == 4 {
        Ok(Found { v4: found.v4 + 1, ..found })
    } else {
        Ok(Found { unknown_version: found.unknown_version + 1, ..found })
    }
}

/// What is found from `off` on, beyond what was found before. The walk ends
/// where no header fits any more.
pub open spec fn found_from(buf: Seq<u8>, off: int, found: Found) -> Result<Found, WalkError>
    decreases buf.len() + 8 - off,
{
    if off < 0 || off + 8 > buf.len() {
        Ok(found)
    } else {
        match with_record(buf, off, found) {
            Ok(next) => {
                proof {
                    reveal(align8);
                }
                found_from(buf, align8(off + le::le(buf, off, 4)), next)
            },
            Err(e) => Err(e),
        }
    }
}

/// What a buffer holds behind its leading value.
pub open spec fn found_in(buf: Seq<u8>) -> Result<Found, WalkError> {
    found_from(buf, 8, Found { records: seq![], v4: 0, unknown_version: 0 })
}

/// No buffer holds so many records that counting them could overflow.
pub open spec fn countable(buf: Seq<u8>) -> bool {
    buf.len() <= 0x7_FFFF_FFF8
}

/// The records and counts of a walk are what was found.
pub open spec fn is_found(
    records: Seq<ParsedUsnRecord>,
    skipped: SkipCounts,
    found: Found,
) -> bool {
    &&& record_models(records) == found.records
    &&& skipped.v4 == found.v4
    &&& skipped.unknown_version == found.unknown_version
}

/// Walks the output of an MFT enumeration.
pub fn walk_enum_buffer(buf: &[u8]) -> (r: Result<EnumWalk, WalkError>)
    requires
        countable(buf@),
    ensures
        buf@.len() < 8 ==> r is Err && r->Err_0 == (WalkError::TruncatedHeader { offset: 0 }),
        buf@.len() >= 8 ==> match found_in(buf@) {
            Ok(f) => r is Ok && is_found(r->Ok_0.records@, r->Ok_0.skipped, f)
                && r->Ok_0.next_start_frn == le::le(buf@, 0, 8),
            Err(e) => r is Err && r->Err_0 == e,
        },
{
    if buf.len() < 8 {
        return Err(WalkError::TruncatedHeader { offset: 0 });
    }
    let next_start_frn = le::u64_at(buf, 0);
    match walk_records(buf) {
        Ok((records, skipped)) => Ok(EnumWalk { next_start_frn, records, skipped }),
        Err(e) => Err(e),
    }
}

/// Walks the output of a journal read.
pub fn walk_journal_buffer(buf: &[u8]) -> (r: Result<JournalWalk, WalkError>)
    requires
        countable(buf@),
    ensures
        buf@.len() < 8 ==> r is Err && r->Err_0 == (WalkError::TruncatedHeader { offset: 0 }),
        buf@.len() >= 8 ==> match found_in(buf@) {
            Ok(f) => r is Ok && is_found(r->Ok_0.records@, r->Ok_0.skipped, f) && r->Ok_0.next_usn
                == le::signed(le::le(buf@, 0, 8)),
            Err(e) => r is Err && r->Err_0 == e,
        },
{
    if buf.len() < 8 {
        return Err(WalkError::TruncatedHeader { offset: 0 });
    }
    let next_usn = le::i64_at(buf, 0);
    match walk_records(buf) {
        Ok((records, skipped)) => Ok(JournalWalk { next_usn, records, skipped }),
        Err(e) => Err(e),
    }
}

/// Takes in the record at `off`; returns where it ends.
fn walk_one(
    buf: &[u8],
    off: usize,
    records: &mut Vec<ParsedUsnRecord>,
    skipped: &mut SkipCounts,
    Ghost(found): Ghost<Found>,
) -> (r: Result<usize, WalkError>)
    requires
        off + 8 <= buf@.len(),
        is_found(old(records)@, *old(skipped), found),
        old(skipped).v4 < u32::MAX,
        old(skipped).unknown_version < u32::MAX,
    ensures
        match with_record(buf@, off as int, found) {
            Ok(next) => {
                &&& r is Ok
                &&& r->Ok_0 == off + le::le(buf@, off as int, 4)
                &&& off < r->Ok_0 <= buf@.len()
                &&& is_found(final(records)@, *final(skipped), next)
                &&& final(skipped).v4 + final(skipped).unknown_version <= old(skipped).v4 + old(
                    skipped,
                ).unknown_version + 1
            },
            Err(e) => r is Err && r->Err_0 == e,
        },
{
    let n = buf.len();
    let rec_len = le::u32_at(buf, off) as usize;
    let version = le::u16_at(buf, off + 4);
    if rec_len == 0 {
        return Err(WalkError::ZeroRecordLength { offset: off });
    }
    if rec_len > n - off {
        return Err(WalkError::RecordOverrun { offset: off });
    }
    let end = off + rec_len;
    if version == 2 || version == 3 {
        let rec = vstd::slice::slice_subrange(buf, off, end);
        match parse_record(rec, version == 3, off) {
            Ok(record) => {
                assert(record_models(records@.push(record)) =~= record_models(records@).push(
                    record.model(),
                ));
                records.push(record);
            },
            Err(e) => {
                return Err(e);
            },
        }
    } else if version == 4 {
        skipped.v4 = skipped.v4 + 1;
    } else {
        skipped.unknown_version = skipped.unknown_version + 1;
    }
    Ok(end)
}

fn walk_records(buf: &[u8]) -> (r: Result<(Vec<ParsedUsnRecord>, SkipCounts), WalkError>)
    requires
        countable(buf@),
    ensures
        match found_in(buf@) {
            Ok(f) => r is Ok && is_found(r->Ok_0.0@, r->Ok_0.1, f),
            Err(e) => r is Err && r->Err_0 == e,
        },
{
    let mut records: Vec<ParsedUsnRecord> = Vec::new();
    let mut skipped = SkipCounts::default();
    let n = buf.len();
    let mut off: usize = 8;
    let ghost mut sofar = Found { records: seq![], v4: 0, unknown_version: 0 };
    assert(record_models(records@) =~= sofar.records);
    while off <= n && n - off >= 8
        invariant_except_break
            countable(buf@),
            n == buf@.len(),
            off >= 8,
            off % 8 == 0,
            is_found(records@, skipped, sofar),
            8 * (skipped.v4 + skipped.unknown_version) <= off - 8,
            found_in(buf@) == found_from(buf@, off as int, sofar),
        ensures
            found_in(buf@) == Ok::<Found, WalkError>(sofar),
            is_found(records@, skipped, sofar),
        decreases n + 8 - off,
    {
        let ghost next = with_record(buf@, off as int, sofar)->Ok_0;
        match walk_one(buf, off, &mut records, &mut skipped, Ghost(sofar)) {
            Ok(end) => {
                proof {
                    sofar = next;
                }
                proof {
                    lemma_align8(off as int, end as int);
                    assert(found_in(buf@) == found_from(buf@, align8(end as int), sofar));
                }
                match aligned(end) {
                    Some(next_off) => {
                        off = next_off;
                    },
                    None => {
                        break;
                    },
                }
            },
            Err(e) => {
                return Err(e);
            },
        }
    }
    Ok((records, skipped))
}

/// Reads one record of version 2 or 3.
fn parse_record(rec: &[u8], v3: bool, offset: usize) -> (r: Result<ParsedUsnRecord, WalkError>)
    ensures
        match record_in(rec@, v3, offset) {
            Ok(m) => r is Ok && r->Ok_0.model() == m,
            Err(e) => r is Err && r->Err_0 == e,
        },
{
    reveal(record_in);
    let header: usize = if v3 {
        76
    } else {
        60
    };
    let parent: usize = if v3 {
        24
    } else {
        16
    };
    let usn: usize = if v3 {
        40
    } else {
        24
    };
    if rec.len() < header {
        return Err(WalkError::TruncatedHeader { offset });
    }
    let name_len = le::u16_at(rec, usn + 32) as usize;
    let name_off = le::u16_at(rec, usn + 34) as usize;
    match extract_name(rec, name_off, name_len, header, offset) {
        Ok((name, name_lossy)) => {
            let record = ParsedUsnRecord {
                major_version: if v3 {
                    3
                } else {
                    2
                },
                frn: Frn(le::u64_at(rec, 8)),
                parent_frn: Frn(le::u64_at(rec, parent)),
                usn: le::i64_at(rec, usn),
                timestamp_ft: le::i64_at(rec, usn + 8),
                reason: le::u32_at(rec, usn + 16),
                attributes: le::u32_at(rec, usn + 28),
                name,
                name_lossy,
            };
            Ok(record)
        },
        Err(e) => Err(e),
    }
}

fn extract_name(
    rec: &[u8],
    name_off: usize,
    name_len: usize,
    min_name_off: usize,
    offset: usize,
) -> (r: Result<(Vec<u8>, bool), WalkError>)
    ensures
        if name_len % 2 != 0 || name_off < min_name_off || name_off + name_len > rec@.len() {
            r is Err && r->Err_0 == (WalkError::MalformedName { offset })
        } else {
            r is Ok && (r->Ok_0.0@, r->Ok_0.1) == name_at(
                rec@,
                name_off as int,
                name_len as int,
            )
        },
{
    if name_len % 2 != 0 || name_off < min_name_off || name_off > rec.len() || name_len > rec.len()
        - name_off {
        return Err(WalkError::MalformedName { offset });
    }
    let units = le::units_at(rec, name_off, name_len);
    let mut name: Vec<u8> = Vec::with_capacity(name_len);
    let name_lossy = wtf8::from_utf16(units.as_slice(), &mut name);
    assert(name@ =~= wtf8::wtf8_of_units(units@));
    Ok((name, name_lossy))
}

} // verus!
