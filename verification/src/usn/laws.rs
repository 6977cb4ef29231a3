//! What holds of every buffer of records.

use crate::le;
use crate::types::Frn;
use crate::usn::record;
use crate::usn::record::{Found, RecordModel, WalkError};
use crate::wtf8;
use vstd::prelude::*;

verus! {

/// A record of any version. Versions 2 and 3 hold all of it, any other version
/// only `tail` behind the length and the version. The high halves of the file
/// references are those of version 3.
pub ghost struct RecordPart {
    pub version: u16,
    pub minor: u16,
    pub frn: Frn,
    pub frn_high: u64,
    pub parent_frn: Frn,
    pub parent_high: u64,
    pub usn: i64,
    pub timestamp_ft: i64,
    pub reason: u32,
    pub source: u32,
    pub security: u32,
    pub attributes: u32,
    pub units: Seq<u16>,
    pub tail: Seq<u8>,
}

/// The version is one that is read.
pub open spec fn is_read(p: RecordPart) -> bool {
    p.version == 2 || p.version == 3
}

/// The bytes of the file references.
pub open spec fn refs_bytes(p: RecordPart) -> Seq<u8> {
    if p.version == 3 {
        le::le_bytes(p.frn.0 as nat, 8) + le::le_bytes(p.frn_high as nat, 8) + le::le_bytes(
            p.parent_frn.0 as nat,
            8,
        ) + le::le_bytes(p.parent_high as nat, 8)
    } else {
        le::le_bytes(p.frn.0 as nat, 8) + le::le_bytes(p.parent_frn.0 as nat, 8)
    }
}

/// The bytes between the file references and the name.
pub open spec fn facts_bytes(p: RecordPart) -> Seq<u8> {
    le::le_bytes(le::unsigned(p.usn as int), 8) + le::le_bytes(
        le::unsigned(p.timestamp_ft as int),
        8,
    ) + le::le_bytes(p.reason as nat, 4) + le::le_bytes(p.source as nat, 4) + le::le_bytes(
        p.security as nat,
        4,
    ) + le::le_bytes(p.attributes as nat, 4) + le::le_bytes(2 * p.units.len(), 2) + le::le_bytes(
        record::header_len(p.version == 3) as nat,
        2,
    )
}

/// How long the record says it is.
pub open spec fn record_len(p: RecordPart) -> nat {
    if is_read(p) {
        record::header_len(p.version == 3) as nat + 2 * p.units.len() + p.tail.len()
    } else {
        8 + p.tail.len()
    }
}

/// The bytes of a record, without the padding behind it.
pub open spec fn record_bytes(p: RecordPart) -> Seq<u8> {
    let head = le::le_bytes(record_len(p), 4) + le::le_bytes(p.version as nat, 2) + le::le_bytes(
        p.minor as nat,
        2,
    );
    if is_read(p) {
        head + refs_bytes(p) + facts_bytes(p) + le::unit_bytes(p.units) + p.tail
    } else {
        head + p.tail
    }
}

/// The bytes up to the next multiple of eight.
pub open spec fn padding(len: nat) -> Seq<u8> {
    Seq::new((record::align8(len as int) - len) as nat, |i: int| 0u8)
}

/// The bytes of records, each padded.
pub open spec fn records_bytes(parts: Seq<RecordPart>) -> Seq<u8>
    decreases parts.len(),
{
    if parts.len() == 0 {
        Seq::empty()
    } else {
        record_bytes(parts[0]) + padding(record_len(parts[0])) + records_bytes(parts.drop_first())
    }
}

/// The bytes of a buffer with the records behind its leading value.
pub open spec fn buffer_bytes(lead: u64, parts: Seq<RecordPart>) -> Seq<u8> {
    le::le_bytes(lead as nat, 8) + records_bytes(parts)
}

/// The record that is read.
pub open spec fn record_told(p: RecordPart) -> RecordModel {
    RecordModel {
        major_version: p.version,
        frn: p.frn,
        parent_frn: p.parent_frn,
        usn: p.usn,
        timestamp_ft: p.timestamp_ft,
        reason: p.reason,
        attributes: p.attributes,
        name: wtf8::wtf8_of_units(p.units),
        name_lossy: wtf8::has_lone(p.units),
    }
}

/// What is found with one more record.
pub open spec fn with_part(found: Found, p: RecordPart) -> Found {
    if is_read(p) {
        Found { records: found.records.push(record_told(p)), ..found }
    } else if p.version == 4 {
        Found { v4: found.v4 + 1, ..found }
    } else {
        Found { unknown_version: found.unknown_version + 1, ..found }
    }
}

/// What is found with the records.
pub open spec fn with_parts(found: Found, parts: Seq<RecordPart>) -> Found
    decreases parts.len(),
{
    if parts.len() == 0 {
        found
    } else {
        with_parts(with_part(found, parts[0]), parts.drop_first())
    }
}

/// The lengths fit in their fields.
pub open spec fn part_fits(p: RecordPart) -> bool {
    2 * p.units.len() <= u16::MAX && record_len(p) <= u32::MAX
}

proof fn lemma_number(v: nat)
    ensures
        le::le_bytes(v, 2).len() == 2,
        le::le_bytes(v, 4).len() == 4,
        le::le_bytes(v, 8).len() == 8,
        v <= u16::MAX ==> le::fits(v, 2),
        v <= u32::MAX ==> le::fits(v, 4),
        v <= u64::MAX ==> le::fits(v, 8),
{
    le::lemma_le_bytes_len(v, 2);
    le::lemma_le_bytes_len(v, 4);
    le::lemma_le_bytes_len(v, 8);
    le::lemma_fits(v);
}

/// The length and the version of a record are read from its bytes.
proof fn lemma_head(p: RecordPart)
    requires
        part_fits(p),
    ensures
        record_bytes(p).len() == record_len(p),
        le::le(record_bytes(p), 0, 4) == record_len(p),
        le::le(record_bytes(p), 4, 2) == p.version,
{
    let rec = record_bytes(p);
    lemma_number(record_len(p));
    lemma_number(p.version as nat);
    lemma_number(p.minor as nat);
    lemma_refs_len(p);
    lemma_facts_len(p);
    assert(rec.subrange(0, 4) =~= le::le_bytes(record_len(p), 4));
    le::lemma_le_at(rec, 0, record_len(p), 4);
    assert(rec.subrange(4, 6) =~= le::le_bytes(p.version as nat, 2));
    le::lemma_le_at(rec, 4, p.version as nat, 2);
}

proof fn lemma_refs_len(p: RecordPart)
    ensures
        refs_bytes(p).len() == (if p.version == 3 {
            32int
        } else {
            16
        }),
{
    lemma_number(p.frn.0 as nat);
    lemma_number(p.frn_high as nat);
    lemma_number(p.parent_frn.0 as nat);
    lemma_number(p.parent_high as nat);
}

proof fn lemma_facts_len(p: RecordPart)
    ensures
        facts_bytes(p).len() == 36,
{
    lemma_number(le::unsigned(p.usn as int));
    lemma_number(le::unsigned(p.timestamp_ft as int));
    lemma_number(p.reason as nat);
    lemma_number(p.source as nat);
    lemma_number(p.security as nat);
    lemma_number(p.attributes as nat);
    lemma_number(2 * p.units.len());
    lemma_number(record::header_len(p.version == 3) as nat);
}

/// The file references are read from their bytes.
proof fn lemma_refs(rec: Seq<u8>, p: RecordPart)
    requires
        8 + refs_bytes(p).len() <= rec.len(),
        rec.subrange(8, 8 + refs_bytes(p).len() as int) == refs_bytes(p),
    ensures
        le::le(rec, 8, 8) == p.frn.0,
        p.version == 3 ==> le::le(rec, 24, 8) == p.parent_frn.0,
        p.version != 3 ==> le::le(rec, 16, 8) == p.parent_frn.0,
{
    let r = refs_bytes(p);
    lemma_number(p.frn.0 as nat);
    lemma_number(p.frn_high as nat);
    lemma_number(p.parent_frn.0 as nat);
    lemma_number(p.parent_high as nat);
    lemma_refs_len(p);
    assert(rec.subrange(8, 16) =~= r.subrange(0, 8));
    assert(r.subrange(0, 8) =~= le::le_bytes(p.frn.0 as nat, 8));
    le::lemma_le_at(rec, 8, p.frn.0 as nat, 8);
    let at: int = if p.version == 3 {
        24
    } else {
        16
    };
    assert(rec.subrange(at, at + 8) =~= r.subrange(at - 8, at));
    assert(r.subrange(at - 8, at) =~= le::le_bytes(p.parent_frn.0 as nat, 8));
    le::lemma_le_at(rec, at, p.parent_frn.0 as nat, 8);
}

/// The numbers behind the file references are read from their bytes.
proof fn lemma_facts(rec: Seq<u8>, at: int, p: RecordPart)
    requires
        0 <= at,
        at + 36 <= rec.len(),
        rec.subrange(at, at + 36) == facts_bytes(p),
        2 * p.units.len() <= u16::MAX,
    ensures
        le::le(rec, at, 8) == le::unsigned(p.usn as int),
        le::le(rec, at + 8, 8) == le::unsigned(p.timestamp_ft as int),
        le::le(rec, at + 16, 4) == p.reason,
        le::le(rec, at + 28, 4) == p.attributes,
        le::le(rec, at + 32, 2) == 2 * p.units.len(),
        le::le(rec, at + 34, 2) == record::header_len(p.version == 3),
{
    let f = facts_bytes(p);
    let usn = le::unsigned(p.usn as int);
    let time = le::unsigned(p.timestamp_ft as int);
    let name_len = 2 * p.units.len();
    let name_off = record::header_len(p.version == 3) as nat;
    lemma_facts_len(p);
    lemma_number(usn);
    lemma_number(time);
    lemma_number(p.reason as nat);
    lemma_number(p.source as nat);
    lemma_number(p.security as nat);
    lemma_number(p.attributes as nat);
    lemma_number(name_len);
    lemma_number(name_off);
    assert(rec.subrange(at, at + 8) =~= f.subrange(0, 8));
    assert(f.subrange(0, 8) =~= le::le_bytes(usn, 8));
    le::lemma_le_at(rec, at, usn, 8);
    assert(rec.subrange(at + 8, at + 16) =~= f.subrange(8, 16));
    assert(f.subrange(8, 16) =~= le::le_bytes(time, 8));
    le::lemma_le_at(rec, at + 8, time, 8);
    assert(rec.subrange(at + 16, at + 20) =~= f.subrange(16, 20));
    assert(f.subrange(16, 20) =~= le::le_bytes(p.reason as nat, 4));
    le::lemma_le_at(rec, at + 16, p.reason as nat, 4);
    assert(rec.subrange(at + 28, at + 32) =~= f.subrange(28, 32));
    assert(f.subrange(28, 32) =~= le::le_bytes(p.attributes as nat, 4));
    le::lemma_le_at(rec, at + 28, p.attributes as nat, 4);
    assert(rec.subrange(at + 32, at + 34) =~= f.subrange(32, 34));
    assert(f.subrange(32, 34) =~= le::le_bytes(name_len, 2));
    le::lemma_le_at(rec, at + 32, name_len, 2);
    assert(rec.subrange(at + 34, at + 36) =~= f.subrange(34, 36));
    assert(f.subrange(34, 36) =~= le::le_bytes(name_off, 2));
    le::lemma_le_at(rec, at + 34, name_off, 2);
}

/// Where the parts of a record lie in its bytes.
proof fn lemma_parts(p: RecordPart)
    requires
        part_fits(p),
        is_read(p),
    ensures
        ({
            let rec = record_bytes(p);
            let at = 8 + refs_bytes(p).len() as int;
            let name = at + 36;
            &&& rec.len() == record_len(p)
            &&& name == record::header_len(p.version == 3)
            &&& rec.subrange(8, at) == refs_bytes(p)
            &&& rec.subrange(at, name) == facts_bytes(p)
            &&& rec.subrange(name, name + 2 * p.units.len()) == le::unit_bytes(p.units)
        }),
{
    let rec = record_bytes(p);
    lemma_head(p);
    lemma_refs_len(p);
    lemma_facts_len(p);
    lemma_number(record_len(p));
    lemma_number(p.version as nat);
    lemma_number(p.minor as nat);
    let head = le::le_bytes(record_len(p), 4) + le::le_bytes(p.version as nat, 2) + le::le_bytes(
        p.minor as nat,
        2,
    );
    let refs = refs_bytes(p);
    let facts = facts_bytes(p);
    let at = 8 + refs.len() as int;
    let name = at + 36;
    assert(head.len() == 8);
    assert(rec == head + refs + facts + le::unit_bytes(p.units) + p.tail);
    assert(rec.subrange(8, at) =~= refs);
    assert(rec.subrange(at, name) =~= facts);
    assert(rec.subrange(name, name + 2 * p.units.len()) =~= le::unit_bytes(p.units));
}

/// A record of a version that is read is read back from its bytes.
proof fn lemma_record_back(p: RecordPart, offset: usize)
    requires
        part_fits(p),
        is_read(p),
    ensures
        record::record_in(record_bytes(p), p.version == 3, offset) == Ok::<RecordModel, WalkError>(
            record_told(p),
        ),
{
    let rec = record_bytes(p);
    lemma_parts(p);
    lemma_refs_len(p);
    let at = 8 + refs_bytes(p).len() as int;
    lemma_refs(rec, p);
    lemma_facts(rec, at, p);
    le::lemma_units(rec, at + 36, p.units);
    lemma_told(rec, p, offset);
}

/// What is read follows from the numbers at their places.
proof fn lemma_told(rec: Seq<u8>, p: RecordPart, offset: usize)
    requires
        part_fits(p),
        is_read(p),
        rec.len() == record_len(p),
        le::le(rec, 8, 8) == p.frn.0,
        ({
            let at: int = if p.version == 3 {
                40
            } else {
                24
            };
            &&& le::le(rec, at - 16, 8) == p.parent_frn.0 || p.version == 2
            &&& le::le(rec, at - 8, 8) == p.parent_frn.0 || p.version == 3
            &&& le::le(rec, at, 8) == le::unsigned(p.usn as int)
            &&& le::le(rec, at + 8, 8) == le::unsigned(p.timestamp_ft as int)
            &&& le::le(rec, at + 16, 4) == p.reason
            &&& le::le(rec, at + 28, 4) == p.attributes
            &&& le::le(rec, at + 32, 2) == 2 * p.units.len()
            &&& le::le(rec, at + 34, 2) == at + 36
            &&& le::units(rec, at + 36, 2 * p.units.len() as int) == p.units
        }),
    ensures
        record::record_in(rec, p.version == 3, offset) == Ok::<RecordModel, WalkError>(
            record_told(p),
        ),
{
    reveal(record::record_in);
}

/// Records in a buffer are found where they lie.
proof fn lemma_records_back(buf: Seq<u8>, off: int, parts: Seq<RecordPart>, found: Found)
    requires
        forall|k: int| 0 <= k < parts.len() ==> part_fits(#[trigger] parts[k]),
        off >= 0,
        off % 8 == 0,
        buf.len() == off + records_bytes(parts).len(),
        buf.subrange(off, buf.len() as int) == records_bytes(parts),
    ensures
        record::found_from(buf, off, found) == Ok::<Found, WalkError>(with_parts(found, parts)),
    decreases parts.len(),
{
    if parts.len() > 0 {
        let p = parts[0];
        let rest = parts.drop_first();
        let rec = record_bytes(p);
        let pad = padding(record_len(p));
        let all = records_bytes(parts);
        assert(part_fits(parts[0]));
        lemma_head(p);
        let len = record_len(p) as int;
        assert(len >= 8);
        reveal(record::align8);
        let next = record::align8(off + len);
        assert(next == off + len + pad.len());
        assert(all =~= rec + (pad + records_bytes(rest)));
        assert(buf.subrange(off, off + len) =~= all.subrange(0, len));
        assert(all.subrange(0, len) =~= rec);
        assert(buf.subrange(off, off + 4) =~= rec.subrange(0, 4));
        le::lemma_le_same(buf, off, rec, 0, 4);
        assert(buf.subrange(off + 4, off + 6) =~= rec.subrange(4, 6));
        le::lemma_le_same(buf, off + 4, rec, 4, 2);
        if is_read(p) {
            lemma_record_back(p, off as usize);
        }
        assert(record::with_record(buf, off, found) == Ok::<Found, WalkError>(with_part(found, p)));
        assert(buf.subrange(next, buf.len() as int) =~= all.subrange(
            len + pad.len(),
            all.len() as int,
        ));
        assert(all.subrange(len + pad.len(), all.len() as int) =~= records_bytes(rest));
        assert forall|k: int| 0 <= k < rest.len() implies part_fits(#[trigger] rest[k]) by {
            assert(rest[k] == parts[k + 1]);
        }
        lemma_records_back(buf, next, rest, with_part(found, p));
    }
}

/// A buffer in which records are laid out one after another is read back:
/// every record of version 2 or 3 as it is, in order, the others counted.
pub proof fn law_records_read_back(lead: u64, parts: Seq<RecordPart>)
    requires
        forall|k: int| 0 <= k < parts.len() ==> part_fits(#[trigger] parts[k]),
    ensures
        le::le(buffer_bytes(lead, parts), 0, 8) == lead,
        record::found_in(buffer_bytes(lead, parts)) == Ok::<Found, WalkError>(
            with_parts(Found { records: seq![], v4: 0, unknown_version: 0 }, parts),
        ),
{
    let buf = buffer_bytes(lead, parts);
    lemma_number(lead as nat);
    assert(buf.subrange(0, 8) =~= le::le_bytes(lead as nat, 8));
    le::lemma_le_at(buf, 0, lead as nat, 8);
    assert(buf.subrange(8, buf.len() as int) =~= records_bytes(parts));
    lemma_records_back(buf, 8, parts, Found { records: seq![], v4: 0, unknown_version: 0 });
}

/// The walk stops at the first record that makes no sense, and tells where it is
/// and what is wrong with it: it has no length, it is longer than the buffer, it
/// is shorter than its header, or its name has an odd length or does not lie
/// behind the header and inside the record.
pub proof fn law_bad_records_are_told(buf: Seq<u8>, off: int, found: Found)
    requires
        0 <= off,
        off + 8 <= buf.len() <= usize::MAX,
    ensures
        ({
            let len = le::le(buf, off, 4);
            let version = le::le(buf, off + 4, 2);
            let at = off as usize;
            let r = record::found_from(buf, off, found);
            let named = version == 2 || version == 3;
            let head: int = if version == 3 {
                76
            } else {
                60
            };
            &&& len == 0 ==> r == Err::<Found, WalkError>(WalkError::ZeroRecordLength {
                offset: at,
            })
            &&& off + len > buf.len() ==> r == Err::<Found, WalkError>(
                WalkError::RecordOverrun { offset: at },
            )
            &&& len > 0 && off + len <= buf.len() && named ==> {
                let name_len = le::le(buf, off + head - 4, 2);
                let name_off = le::le(buf, off + head - 2, 2);
                &&& len < head ==> r == Err::<Found, WalkError>(
                    WalkError::TruncatedHeader { offset: at },
                )
                &&& len >= head && (name_len % 2 != 0 || name_off < head || name_off + name_len
                    > len) ==> r == Err::<Found, WalkError>(
                    WalkError::MalformedName { offset: at },
                )
            }
        }),
{
    reveal(record::record_in);
    let len = le::le(buf, off, 4) as int;
    let version = le::le(buf, off + 4, 2);
    let head: int = if version == 3 {
        76
    } else {
        60
    };
    if len >= head && off + len <= buf.len() {
        let rec = buf.subrange(off, off + len);
        assert(rec.subrange(head - 4, head - 2) =~= buf.subrange(off + head - 4, off + head - 2));
        le::lemma_le_same(rec, head - 4, buf, off + head - 4, 2);
        assert(rec.subrange(head - 2, head) =~= buf.subrange(off + head - 2, off + head));
        le::lemma_le_same(rec, head - 2, buf, off + head - 2, 2);
    }
}

/// A bad record is told in words, with its place.
pub proof fn law_bad_records_in_words(offset: usize)
    ensures
        record::error_words(WalkError::ZeroRecordLength { offset })
            == " has RecordLength == 0 (corrupt buffer)"@,
        record::error_words(WalkError::RecordOverrun { offset }) == " overruns the buffer end"@,
        record::error_words(WalkError::TruncatedHeader { offset })
            == " is too short for its version's fixed header"@,
        record::error_words(WalkError::MalformedName { offset })
            == " has a malformed file-name span"@,
        (WalkError::ZeroRecordLength { offset }).at() == offset,
        (WalkError::RecordOverrun { offset }).at() == offset,
        (WalkError::TruncatedHeader { offset }).at() == offset,
        (WalkError::MalformedName { offset }).at() == offset,
{
}

/// Records start at multiples of eight bytes, and the next one at the first such
/// place behind the record. The header of version 2 has 60 bytes and that of
/// version 3 has 76.
pub proof fn law_records_are_aligned(n: int)
    requires
        n >= 0,
    ensures
        record::align8(n) % 8 == 0,
        n <= record::align8(n) < n + 8,
        record::header_len(false) == 60,
        record::header_len(true) == 76,
{
    reveal(record::align8);
}

/// The parts of a record that is read are its fields.
pub proof fn law_records_are_modelled_whole(r: record::ParsedUsnRecord)
    ensures
        r.model().major_version == r.major_version,
        r.model().frn == r.frn,
        r.model().parent_frn == r.parent_frn,
        r.model().usn == r.usn,
        r.model().timestamp_ft == r.timestamp_ft,
        r.model().reason == r.reason,
        r.model().attributes == r.attributes,
        r.model().name == r.name@,
        r.model().name_lossy == r.name_lossy,
        record::directory(r.attributes) <==> r.attributes & 0x10 != 0,
{
}

} // verus!
