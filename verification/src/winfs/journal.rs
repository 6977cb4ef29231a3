//! The change journal of a volume.

use crate::le;
use crate::winfs::error::WinError;
use vstd::prelude::*;

verus! {

pub const ERROR_JOURNAL_DELETE_IN_PROGRESS: u32 = 1178;

pub const ERROR_JOURNAL_NOT_ACTIVE: u32 = 1179;

pub const ERROR_JOURNAL_ENTRY_DELETED: u32 = 1181;

/// What a journal holds.
#[derive(Debug, Clone, Copy, PartialEq, Eq, Structural)]
pub struct JournalInfo {
    pub journal_id: u64,
    pub first_usn: i64,
    pub next_usn: i64,
    pub lowest_valid_usn: i64,
    pub max_usn: i64,
    pub maximum_size: u64,
}

/// The state of a journal.
#[derive(Debug, Clone, Copy, PartialEq, Eq, Structural)]
pub enum JournalQuery {
    Active(JournalInfo),
    NotActive,
    DeleteInProgress,
}

/// Bytes of the answer to a query of the journal.
pub const JOURNAL_DATA_LEN: usize = 56;

/// What the answer to a query of the journal says.
pub open spec fn info_in(b: Seq<u8>) -> JournalInfo {
    JournalInfo {
        journal_id: le::le(b, 0, 8) as u64,
        first_usn: le::signed(le::le(b, 8, 8)) as i64,
        next_usn: le::signed(le::le(b, 16, 8)) as i64,
        lowest_valid_usn: le::signed(le::le(b, 24, 8)) as i64,
        max_usn: le::signed(le::le(b, 32, 8)) as i64,
        maximum_size: le::le(b, 40, 8) as u64,
    }
}

/// The state of a journal, from what the query gave: the bytes of the answer,
/// or an error code.
pub fn journal_state(r: Result<&[u8], u32>) -> (out: Result<JournalQuery, WinError>)
    requires
        r matches Ok(b) ==> b@.len() >= JOURNAL_DATA_LEN,
    ensures
        match r {
            Ok(b) => out == Ok::<JournalQuery, WinError>(JournalQuery::Active(info_in(b@))),
            Err(code) => if code == ERROR_JOURNAL_NOT_ACTIVE {
                out == Ok::<JournalQuery, WinError>(JournalQuery::NotActive)
            } else if code == ERROR_JOURNAL_DELETE_IN_PROGRESS {
                out == Ok::<JournalQuery, WinError>(JournalQuery::DeleteInProgress)
            } else {
                out matches Err(e) && e.code == code && e.context@ == "FSCTL_QUERY_USN_JOURNAL"@
            },
        },
{
    match r {
        Ok(b) => Ok(
            JournalQuery::Active(
                JournalInfo {
                    journal_id: le::u64_at(b, 0),
                    first_usn: le::i64_at(b, 8),
                    next_usn: le::i64_at(b, 16),
                    lowest_valid_usn: le::i64_at(b, 24),
                    max_usn: le::i64_at(b, 32),
                    maximum_size: le::u64_at(b, 40),
                },
            ),
        ),
        Err(code) => {
            if code == ERROR_JOURNAL_NOT_ACTIVE {
                Ok(JournalQuery::NotActive)
            } else if code == ERROR_JOURNAL_DELETE_IN_PROGRESS {
                Ok(JournalQuery::DeleteInProgress)
            } else {
                Err(WinError { code, context: "FSCTL_QUERY_USN_JOURNAL" })
            }
        },
    }
}

/// The answer to a query of the journal holds its number, its first, next and
/// lowest update sequence number, the greatest one, and its size, in eight bytes
/// each.
pub proof fn law_journal_answers_read_back(info: JournalInfo, rest: Seq<u8>)
    ensures
        info_in(
            le::le_bytes(info.journal_id as nat, 8) + le::le_bytes(
                le::unsigned(info.first_usn as int),
                8,
            ) + le::le_bytes(le::unsigned(info.next_usn as int), 8) + le::le_bytes(
                le::unsigned(info.lowest_valid_usn as int),
                8,
            ) + le::le_bytes(le::unsigned(info.max_usn as int), 8) + le::le_bytes(
                info.maximum_size as nat,
                8,
            ) + rest,
        ) == info,
{
    let p = le::le_bytes(info.journal_id as nat, 8);
    let q = le::le_bytes(le::unsigned(info.first_usn as int), 8);
    let r = le::le_bytes(le::unsigned(info.next_usn as int), 8);
    let s = le::le_bytes(le::unsigned(info.lowest_valid_usn as int), 8);
    let t = le::le_bytes(le::unsigned(info.max_usn as int), 8);
    let u = le::le_bytes(info.maximum_size as nat, 8);
    let b = p + q + r + s + t + u + rest;
    lemma_field(info.journal_id as nat);
    lemma_field(le::unsigned(info.first_usn as int));
    lemma_field(le::unsigned(info.next_usn as int));
    lemma_field(le::unsigned(info.lowest_valid_usn as int));
    lemma_field(le::unsigned(info.max_usn as int));
    lemma_field(info.maximum_size as nat);
    assert(b.subrange(0, 8) =~= p);
    assert(b.subrange(8, 16) =~= q);
    assert(b.subrange(16, 24) =~= r);
    assert(b.subrange(24, 32) =~= s);
    assert(b.subrange(32, 40) =~= t);
    assert(b.subrange(40, 48) =~= u);
    le::lemma_le_at(b, 0, info.journal_id as nat, 8);
    le::lemma_le_at(b, 8, le::unsigned(info.first_usn as int), 8);
    le::lemma_le_at(b, 16, le::unsigned(info.next_usn as int), 8);
    le::lemma_le_at(b, 24, le::unsigned(info.lowest_valid_usn as int), 8);
    le::lemma_le_at(b, 32, le::unsigned(info.max_usn as int), 8);
    le::lemma_le_at(b, 40, info.maximum_size as nat, 8);
}

proof fn lemma_field(v: nat)
    requires
        v <= 0xFFFF_FFFF_FFFF_FFFF,
    ensures
        le::le_bytes(v, 8).len() == 8,
        le::fits(v, 8),
{
    le::lemma_fits(v);
    le::lemma_le_bytes_len(v, 8);
}

} // verus!
