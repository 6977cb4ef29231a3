//! Walking the output of a file-layout query.
//!
//! The buffer is a header followed by a chain of file entries, each with its
//! own chains of names and streams. Every link is a relative offset. A link
//! must lead behind the structure it stands in, so no chain can loop.

use crate::le;
use crate::text;
use crate::types::Frn;
use crate::wtf8;
use vstd::prelude::*;
use vstd::string::StringExecFns;

verus! {

pub const QUERY_FILE_LAYOUT_RESTART: u32 = 0x0000_0001;

pub const QUERY_FILE_LAYOUT_INCLUDE_NAMES: u32 = 0x0000_0002;

pub const QUERY_FILE_LAYOUT_INCLUDE_STREAMS: u32 = 0x0000_0004;

pub const QUERY_FILE_LAYOUT_INCLUDE_EXTRA_INFO: u32 = 0x0000_0010;

pub const QUERY_FILE_LAYOUT_INCLUDE_STREAMS_WITH_NO_CLUSTERS_ALLOCATED: u32 = 0x0000_0020;

pub const QUERY_FILE_LAYOUT_SINGLE_INSTANCED: u32 = 0x0000_0001;

/// Names, streams (resident ones too) and times.
pub const RECOMMENDED_LAYOUT_FLAGS: u32 = QUERY_FILE_LAYOUT_INCLUDE_NAMES
    | QUERY_FILE_LAYOUT_INCLUDE_STREAMS | QUERY_FILE_LAYOUT_INCLUDE_EXTRA_INFO
    | QUERY_FILE_LAYOUT_INCLUDE_STREAMS_WITH_NO_CLUSTERS_ALLOCATED;

pub const FILE_LAYOUT_NAME_ENTRY_PRIMARY: u32 = 0x0000_0001;

pub const FILE_LAYOUT_NAME_ENTRY_DOS: u32 = 0x0000_0002;

pub const FILE_ATTRIBUTE_DIRECTORY: u32 = 0x0000_0010;

/// The longest name of a path component, in bytes of UTF-16.
pub const MAX_NAME_BYTES: u32 = 510;

/// Length of the information block when none is declared.
pub const INFO_ENTRY_LEGACY_LEN: usize = 56;

pub const HEADER_LEN: usize = 16;

pub const FILE_LEN: usize = 40;

pub const NAME_LEN: usize = 24;

pub const INFO_LEN: usize = 24;

pub const STREAM_LEN: usize = 48;

/// One name of a file.
#[derive(Clone, Debug, PartialEq, Eq)]
pub struct LayoutName {
    pub parent_frn: Frn,
    /// The name in WTF-8.
    pub name: Vec<u8>,
    /// The name holds an unpaired surrogate.
    pub name_lossy: bool,
    /// An 8.3 alias only.
    pub dos_only: bool,
}

/// One file.
#[derive(Clone, Debug, PartialEq, Eq)]
pub struct LayoutFile {
    pub frn: Frn,
    pub attributes: u32,
    /// Size of the unnamed data stream; `None` for directories and where no
    /// such stream was reported.
    pub size: Option<u64>,
    /// Time of the last write.
    pub mtime_ft: Option<i64>,
    pub names: Vec<LayoutName>,
}

#[verifier::ext_equal]
pub ghost struct NameModel {
    pub parent_frn: Frn,
    pub name: Seq<u8>,
    pub name_lossy: bool,
    pub dos_only: bool,
}

#[verifier::ext_equal]
pub ghost struct FileModel {
    pub frn: Frn,
    pub attributes: u32,
    pub size: Option<u64>,
    pub mtime_ft: Option<i64>,
    pub names: Seq<NameModel>,
}

impl LayoutName {
    pub open spec fn model(&self) -> NameModel {
        NameModel {
            parent_frn: self.parent_frn,
            name: self.name@,
            name_lossy: self.name_lossy,
            dos_only: self.dos_only,
        }
    }
}

pub open spec fn name_models(v: Seq<LayoutName>) -> Seq<NameModel> {
    v.map_values(|n: LayoutName| n.model())
}

impl LayoutFile {
    pub open spec fn model(&self) -> FileModel {
        FileModel {
            frn: self.frn,
            attributes: self.attributes,
            size: self.size,
            mtime_ft: self.mtime_ft,
            names: name_models(self.names@),
        }
    }
}

pub open spec fn file_models(v: Seq<LayoutFile>) -> Seq<FileModel> {
    v.map_values(|f: LayoutFile| f.model())
}

/// A buffer that does not hold what it should.
#[derive(Clone, Debug, PartialEq, Eq)]
pub enum LayoutWalkError {
    Truncated { what: &'static str, offset: usize, need: usize, len: usize },
    OffsetOutOfBounds { what: &'static str, offset: usize, len: usize },
    OffsetCycle { what: &'static str, offset: usize, rel: u32, min: usize },
    OddUtf16Length { what: &'static str, offset: usize, len: u32 },
    NameTooLong { what: &'static str, offset: usize, len: u32, max: u32 },
}

/// The words for an error.
pub open spec fn error_text(e: LayoutWalkError) -> Seq<char> {
    match e {
        LayoutWalkError::Truncated { what, offset, need, len } => "truncated "@ + what@ + ": need "@
            + text::decimal(need as nat) + " bytes at offset "@ + text::decimal(offset as nat)
            + ", buffer has "@ + text::decimal(len as nat),
        LayoutWalkError::OffsetOutOfBounds { what, offset, len } => what@
            + " points out of bounds: offset "@ + text::decimal(offset as nat) + ", buffer has "@
            + text::decimal(len as nat) + " bytes"@,
        LayoutWalkError::OffsetCycle { what, offset, rel, min } => what@ + " at offset "@
            + text::decimal(offset as nat)
            + " does not advance monotonically: relative offset "@ + text::decimal(rel as nat)
            + " < minimum "@ + text::decimal(min as nat) + " (cycle guard)"@,
        LayoutWalkError::OddUtf16Length { what, offset, len } => what@ + " at offset "@
            + text::decimal(offset as nat) + " is odd ("@ + text::decimal(len as nat)
            + " bytes); UTF-16LE lengths must be even"@,
        LayoutWalkError::NameTooLong { what, offset, len, max } => what@ + " at offset "@
            + text::decimal(offset as nat) + " declares "@ + text::decimal(len as nat)
            + " bytes, exceeding the NTFS component limit of "@ + text::decimal(max as nat),
    }
}

impl LayoutWalkError {
    /// The error in words.
    pub fn message(&self) -> (s: String)
        ensures
            s@ == error_text(*self),
    {
        let mut s;
        match self {
            LayoutWalkError::Truncated { what, offset, need, len } => {
                s = String::from_str("truncated ");
                s.append(what);
                s.append(": need ");
                text::push_decimal(&mut s, *need as u64);
                s.append(" bytes at offset ");
                text::push_decimal(&mut s, *offset as u64);
                s.append(", buffer has ");
                text::push_decimal(&mut s, *len as u64);
            },
            LayoutWalkError::OffsetOutOfBounds { what, offset, len } => {
                s = String::from_str(what);
                s.append(" points out of bounds: offset ");
                text::push_decimal(&mut s, *offset as u64);
                s.append(", buffer has ");
                text::push_decimal(&mut s, *len as u64);
                s.append(" bytes");
            },
            LayoutWalkError::OffsetCycle { what, offset, rel, min } => {
                s = String::from_str(what);
                s.append(" at offset ");
                text::push_decimal(&mut s, *offset as u64);
                s.append(" does not advance monotonically: relative offset ");
                text::push_decimal(&mut s, *rel as u64);
                s.append(" < minimum ");
                text::push_decimal(&mut s, *min as u64);
                s.append(" (cycle guard)");
            },
            LayoutWalkError::OddUtf16Length { what, offset, len } => {
                s = String::from_str(what);
                s.append(" at offset ");
                text::push_decimal(&mut s, *offset as u64);
                s.append(" is odd (");
                text::push_decimal(&mut s, *len as u64);
                s.append(" bytes); UTF-16LE lengths must be even");
            },
            LayoutWalkError::NameTooLong { what, offset, len, max } => {
                s = String::from_str(what);
                s.append(" at offset ");
                text::push_decimal(&mut s, *offset as u64);
                s.append(" declares ");
                text::push_decimal(&mut s, *len as u64);
                s.append(" bytes, exceeding the NTFS component limit of ");
                text::push_decimal(&mut s, *max as u64);
            },
        }
        s
    }
}

/// The error of a span of bytes that does not lie in the buffer.
pub open spec fn span_error(
    buf: Seq<u8>,
    offset: int,
    need: int,
    what: &'static str,
) -> Option<LayoutWalkError> {
    if need == 0 {
        None
    } else if offset >= buf.len() {
        Some(
            LayoutWalkError::OffsetOutOfBounds {
                what,
                offset: offset as usize,
                len: buf.len() as usize,
            },
        )
    } else if offset + need > buf.len() {
        Some(
            LayoutWalkError::Truncated {
                what,
                offset: offset as usize,
                need: need as usize,
                len: buf.len() as usize,
            },
        )
    } else {
        None
    }
}

/// Where a link leads: `rel` bytes behind `base`, which must be at least
/// `min` and inside the buffer.
pub open spec fn linked(
    buf: Seq<u8>,
    base: int,
    rel: int,
    min: int,
    what: &'static str,
) -> Result<int, LayoutWalkError> {
    if rel < min {
        Err(
            LayoutWalkError::OffsetCycle {
                what,
                offset: base as usize,
                rel: rel as u32,
                min: min as usize,
            },
        )
    } else if base + rel >= buf.len() {
        Err(
            LayoutWalkError::OffsetOutOfBounds {
                what,
                offset: if base + rel > usize::MAX {
                    usize::MAX
                } else {
                    (base + rel) as usize
                },
                len: buf.len() as usize,
            },
        )
    } else {
        Ok(base + rel)
    }
}

/// What the name entry at `off` says, and where the next one is; zero means
/// that there is none.
pub open spec fn name_entry(buf: Seq<u8>, off: int) -> Result<NameModel, LayoutWalkError> {
    let len = le::le(buf, off + 16, 4) as int;
    let flags = le::le(buf, off + 4, 4) as u32;
    let units = le::units(buf, off + NAME_LEN, len);
    if span_error(buf, off, NAME_LEN as int, "FILE_LAYOUT_NAME_ENTRY") is Some {
        Err(span_error(buf, off, NAME_LEN as int, "FILE_LAYOUT_NAME_ENTRY")->Some_0)
    } else if len > MAX_NAME_BYTES {
        Err(
            LayoutWalkError::NameTooLong {
                what: "FILE_LAYOUT_NAME_ENTRY.FileName",
                offset: off as usize,
                len: len as u32,
                max: MAX_NAME_BYTES,
            },
        )
    } else if len % 2 != 0 {
        Err(
            LayoutWalkError::OddUtf16Length {
                what: "FILE_LAYOUT_NAME_ENTRY.FileNameLength",
                offset: off as usize,
                len: len as u32,
            },
        )
    } else if span_error(buf, off + NAME_LEN, len, "FILE_LAYOUT_NAME_ENTRY.FileName") is Some {
        Err(span_error(buf, off + NAME_LEN, len, "FILE_LAYOUT_NAME_ENTRY.FileName")->Some_0)
    } else {
        Ok(
            NameModel {
                parent_frn: Frn(le::le(buf, off + 8, 8) as u64),
                name: wtf8::wtf8_of_units(units),
                name_lossy: wtf8::has_lone(units),
                dos_only: flags & FILE_LAYOUT_NAME_ENTRY_DOS != 0 && flags
                    & FILE_LAYOUT_NAME_ENTRY_PRIMARY == 0,
            },
        )
    }
}

/// The names in the chain that begins at `off`.
pub open spec fn names_from(buf: Seq<u8>, off: int) -> Result<Seq<NameModel>, LayoutWalkError>
    decreases buf.len() - off,
{
    match name_entry(buf, off) {
        Err(e) => Err(e),
        Ok(name) => {
            let rel = le::le(buf, off, 4) as int;
            if rel == 0 {
                Ok(seq![name])
            } else {
                match linked(buf, off, rel, NAME_LEN as int, "FILE_LAYOUT_NAME_ENTRY.NextNameOffset") {
                    Err(e) => Err(e),
                    Ok(next) => match names_from(buf, next) {
                        Err(e) => Err(e),
                        Ok(rest) => Ok(seq![name] + rest),
                    },
                }
            }
        },
    }
}

/// The identifier of the unnamed data stream: empty, or `::$DATA`.
pub open spec fn unnamed_data(id: Seq<u8>) -> bool {
    id.len() == 0 || id == seq![
        0x3Au8,
        0x00u8,
        0x3Au8,
        0x00u8,
        0x24u8,
        0x00u8,
        0x44u8,
        0x00u8,
        0x41u8,
        0x00u8,
        0x54u8,
        0x00u8,
        0x41u8,
        0x00u8,
    ]
}

/// The size that the stream entry at `off` gives the file, if it is the
/// unnamed data stream.
pub open spec fn stream_entry(buf: Seq<u8>, off: int) -> Result<Option<u64>, LayoutWalkError> {
    let len = le::le(buf, off + 44, 4) as int;
    let size = le::signed(le::le(buf, off + 24, 8));
    if span_error(buf, off, STREAM_LEN as int, "STREAM_LAYOUT_ENTRY") is Some {
        Err(span_error(buf, off, STREAM_LEN as int, "STREAM_LAYOUT_ENTRY")->Some_0)
    } else if len % 2 != 0 {
        Err(
            LayoutWalkError::OddUtf16Length {
                what: "STREAM_LAYOUT_ENTRY.StreamIdentifierLength",
                offset: off as usize,
                len: len as u32,
            },
        )
    } else if span_error(buf, off + STREAM_LEN, len, "STREAM_LAYOUT_ENTRY.StreamIdentifier") is Some {
        Err(span_error(buf, off + STREAM_LEN, len, "STREAM_LAYOUT_ENTRY.StreamIdentifier")->Some_0)
    } else if unnamed_data(buf.subrange(off + STREAM_LEN, off + STREAM_LEN + len)) {
        Ok(
            Some(
                if size > 0 {
                    size as u64
                } else {
                    0
                },
            ),
        )
    } else {
        Ok(None)
    }
}

/// The size that the chain of streams at `off` gives the file: that of the
/// first unnamed data stream, unless `size` is known already.
pub open spec fn size_from(buf: Seq<u8>, off: int, size: Option<u64>) -> Result<
    Option<u64>,
    LayoutWalkError,
>
    decreases buf.len() - off,
{
    match stream_entry(buf, off) {
        Err(e) => Err(e),
        Ok(here) => {
            let known = if size is Some {
                size
            } else {
                here
            };
            let rel = le::le(buf, off + 4, 4) as int;
            if rel == 0 {
                Ok(known)
            } else {
                match linked(buf, off, rel, STREAM_LEN as int, "STREAM_LAYOUT_ENTRY.NextStreamOffset") {
                    Err(e) => Err(e),
                    Ok(next) => size_from(buf, next, known),
                }
            }
        },
    }
}

/// The names of the file whose entry is at `off`.
pub open spec fn file_names(buf: Seq<u8>, off: int) -> Result<Seq<NameModel>, LayoutWalkError> {
    let rel = le::le(buf, off + 24, 4) as int;
    if rel == 0 {
        Ok(seq![])
    } else {
        match linked(buf, off, rel, FILE_LEN as int, "FILE_LAYOUT_ENTRY.FirstNameOffset") {
            Err(e) => Err(e),
            Ok(at) => names_from(buf, at),
        }
    }
}

/// The time of the last write of the file whose entry is at `off`: unknown
/// without an information block that reaches so far.
pub open spec fn file_mtime(buf: Seq<u8>, off: int) -> Result<Option<i64>, LayoutWalkError> {
    let rel = le::le(buf, off + 32, 4) as int;
    let declared = le::le(buf, off + 36, 4) as int;
    if rel == 0 {
        Ok(None)
    } else {
        match linked(buf, off, rel, FILE_LEN as int, "FILE_LAYOUT_ENTRY.ExtraInfoOffset") {
            Err(e) => Err(e),
            Ok(at) => if declared != 0 && declared < INFO_LEN {
                Ok(None)
            } else if span_error(buf, at, INFO_LEN as int, "FILE_LAYOUT_INFO_ENTRY") is Some {
                Err(span_error(buf, at, INFO_LEN as int, "FILE_LAYOUT_INFO_ENTRY")->Some_0)
            } else {
                Ok(Some(le::signed(le::le(buf, at + 16, 8)) as i64))
            },
        }
    }
}

/// The size of the file whose entry is at `off`; a directory has none, but
/// its streams must be sound too.
pub open spec fn file_size(buf: Seq<u8>, off: int) -> Result<Option<u64>, LayoutWalkError> {
    let rel = le::le(buf, off + 28, 4) as int;
    let is_dir = (le::le(buf, off + 12, 4) as u32) & FILE_ATTRIBUTE_DIRECTORY != 0;
    if rel == 0 {
        Ok(None)
    } else {
        match linked(buf, off, rel, FILE_LEN as int, "FILE_LAYOUT_ENTRY.FirstStreamOffset") {
            Err(e) => Err(e),
            Ok(at) => match size_from(buf, at, None) {
                Err(e) => Err(e),
                Ok(size) => Ok(
                    if is_dir {
                        None
                    } else {
                        size
                    },
                ),
            },
        }
    }
}

/// What the file entry at `off` says: its names, its times and its streams
/// are read in this order, and the first error counts.
pub open spec fn file_entry(buf: Seq<u8>, off: int) -> Result<FileModel, LayoutWalkError> {
    match file_names(buf, off) {
        Err(e) => Err(e),
        Ok(names) => match file_mtime(buf, off) {
            Err(e) => Err(e),
            Ok(mtime_ft) => match file_size(buf, off) {
                Err(e) => Err(e),
                Ok(size) => Ok(
                    FileModel {
                        frn: Frn(le::le(buf, off + 16, 8) as u64),
                        attributes: le::le(buf, off + 12, 4) as u32,
                        size,
                        mtime_ft,
                        names,
                    },
                ),
            },
        },
    }
}

/// The files in the chain that begins at `off`.
pub open spec fn files_from(buf: Seq<u8>, off: int) -> Result<Seq<FileModel>, LayoutWalkError>
    decreases buf.len() - off,
{
    if span_error(buf, off, FILE_LEN as int, "FILE_LAYOUT_ENTRY") is Some {
        Err(span_error(buf, off, FILE_LEN as int, "FILE_LAYOUT_ENTRY")->Some_0)
    } else {
        match file_entry(buf, off) {
            Err(e) => Err(e),
            Ok(file) => {
                let rel = le::le(buf, off + 4, 4) as int;
                if rel == 0 {
                    Ok(seq![file])
                } else {
                    match linked(buf, off, rel, FILE_LEN as int, "FILE_LAYOUT_ENTRY.NextFileOffset") {
                        Err(e) => Err(e),
                        Ok(next) => match files_from(buf, next) {
                            Err(e) => Err(e),
                            Ok(rest) => Ok(seq![file] + rest),
                        },
                    }
                }
            },
        }
    }
}

/// The files that a buffer holds.
pub open spec fn files_in(buf: Seq<u8>) -> Result<Seq<FileModel>, LayoutWalkError> {
    if buf.len() == 0 {
        Ok(seq![])
    } else if span_error(buf, 0, HEADER_LEN as int, "QUERY_FILE_LAYOUT_OUTPUT") is Some {
        Err(span_error(buf, 0, HEADER_LEN as int, "QUERY_FILE_LAYOUT_OUTPUT")->Some_0)
    } else if le::le(buf, 0, 4) == 0 {
        Ok(seq![])
    } else {
        match linked(
            buf,
            0,
            le::le(buf, 4, 4) as int,
            HEADER_LEN as int,
            "QUERY_FILE_LAYOUT_OUTPUT.FirstFileOffset",
        ) {
            Err(e) => Err(e),
            Ok(at) => files_from(buf, at),
        }
    }
}

fn check_span(buf: &[u8], offset: usize, need: usize, what: &'static str) -> (r: Result<
    (),
    LayoutWalkError,
>)
    ensures
        match span_error(buf@, offset as int, need as int, what) {
            None => r is Ok,
            Some(e) => r is Err && r->Err_0 == e,
        },
{
    if need == 0 {
        return Ok(());
    }
    if offset >= buf.len() {
        return Err(LayoutWalkError::OffsetOutOfBounds { what, offset, len: buf.len() });
    }
    if need > buf.len() - offset {
        return Err(LayoutWalkError::Truncated { what, offset, need, len: buf.len() });
    }
    Ok(())
}

fn follow_offset(buf: &[u8], base: usize, rel: u32, min: usize, what: &'static str) -> (r: Result<
    usize,
    LayoutWalkError,
>)
    ensures
        match linked(buf@, base as int, rel as int, min as int, what) {
            Ok(at) => r is Ok && r->Ok_0 == at,
            Err(e) => r is Err && r->Err_0 == e,
        },
{
    if (rel as usize) < min {
        return Err(LayoutWalkError::OffsetCycle { what, offset: base, rel, min });
    }
    match base.checked_add(rel as usize) {
        None => Err(
            LayoutWalkError::OffsetOutOfBounds { what, offset: usize::MAX, len: buf.len() },
        ),
        Some(at) => {
            if at >= buf.len() {
                Err(LayoutWalkError::OffsetOutOfBounds { what, offset: at, len: buf.len() })
            } else {
                Ok(at)
            }
        },
    }
}

fn parse_name(buf: &[u8], off: usize) -> (r: Result<LayoutName, LayoutWalkError>)
    ensures
        match name_entry(buf@, off as int) {
            Ok(m) => r is Ok && r->Ok_0.model() == m,
            Err(e) => r is Err && r->Err_0 == e,
        },
        r is Ok ==> off + NAME_LEN <= buf@.len(),
{
    assert(buf.len() == buf@.len());
    match check_span(buf, off, NAME_LEN, "FILE_LAYOUT_NAME_ENTRY") {
        Ok(_) => {},
        Err(e) => {
            return Err(e);
        },
    }
    let len = le::u32_at(buf, off + 16);
    if len > MAX_NAME_BYTES {
        return Err(
            LayoutWalkError::NameTooLong {
                what: "FILE_LAYOUT_NAME_ENTRY.FileName",
                offset: off,
                len,
                max: MAX_NAME_BYTES,
            },
        );
    }
    if len % 2 != 0 {
        return Err(
            LayoutWalkError::OddUtf16Length {
                what: "FILE_LAYOUT_NAME_ENTRY.FileNameLength",
                offset: off,
                len,
            },
        );
    }
    match check_span(buf, off + NAME_LEN, len as usize, "FILE_LAYOUT_NAME_ENTRY.FileName") {
        Ok(_) => {},
        Err(e) => {
            return Err(e);
        },
    }
    let units = le::units_at(buf, off + NAME_LEN, len as usize);
    let mut name: Vec<u8> = Vec::with_capacity(len as usize);
    let name_lossy = wtf8::from_utf16(units.as_slice(), &mut name);
    assert(name@ =~= wtf8::wtf8_of_units(units@));
    let flags = le::u32_at(buf, off + 4);
    Ok(
        LayoutName {
            parent_frn: Frn(le::u64_at(buf, off + 8)),
            name,
            name_lossy,
            dos_only: flags & FILE_LAYOUT_NAME_ENTRY_DOS != 0 && flags
                & FILE_LAYOUT_NAME_ENTRY_PRIMARY == 0,
        },
    )
}

/// `rest` behind what was read before it.
spec fn behind<T>(before: Seq<T>, rest: Result<Seq<T>, LayoutWalkError>) -> Result<
    Seq<T>,
    LayoutWalkError,
> {
    match rest {
        Ok(s) => Ok(before + s),
        Err(e) => Err(e),
    }
}

fn parse_names(buf: &[u8], first: usize) -> (r: Result<Vec<LayoutName>, LayoutWalkError>)
    ensures
        match names_from(buf@, first as int) {
            Ok(m) => r is Ok && name_models(r->Ok_0@) == m,
            Err(e) => r is Err && r->Err_0 == e,
        },
{
    let mut names: Vec<LayoutName> = Vec::new();
    let mut off = first;
    proof {
        match names_from(buf@, off as int) {
            Ok(s) => assert(name_models(names@) + s =~= s),
            Err(_) => {},
        }
    }
    loop
        invariant
            names_from(buf@, first as int) == behind(
                name_models(names@),
                names_from(buf@, off as int),
            ),
        decreases buf@.len() - off,
    {
        let ghost before = name_models(names@);
        let name = match parse_name(buf, off) {
            Ok(name) => name,
            Err(e) => {
                return Err(e);
            },
        };
        assert(name_models(names@.push(name)) =~= before + seq![name.model()]);
        names.push(name);
        assert(buf.len() == buf@.len());
        let rel = le::u32_at(buf, off);
        if rel == 0 {
            return Ok(names);
        }
        match follow_offset(buf, off, rel, NAME_LEN, "FILE_LAYOUT_NAME_ENTRY.NextNameOffset") {
            Ok(next) => {
                proof {
                    match names_from(buf@, next as int) {
                        Ok(s) => assert(before + (seq![name.model()] + s) =~= name_models(names@)
                            + s),
                        Err(_) => {},
                    }
                }
                off = next;
            },
            Err(e) => {
                return Err(e);
            },
        }
    }
}

fn is_unnamed_data_identifier(id: &[u8]) -> (r: bool)
    ensures
        r == unnamed_data(id@),
{
    let data: [u8; 14] = [
        0x3A,
        0x00,
        0x3A,
        0x00,
        0x24,
        0x00,
        0x44,
        0x00,
        0x41,
        0x00,
        0x54,
        0x00,
        0x41,
        0x00,
    ];
    assert(data@ =~= seq![
        0x3Au8,
        0x00u8,
        0x3Au8,
        0x00u8,
        0x24u8,
        0x00u8,
        0x44u8,
        0x00u8,
        0x41u8,
        0x00u8,
        0x54u8,
        0x00u8,
        0x41u8,
        0x00u8,
    ]);
    id.len() == 0 || le::same_bytes(id, &data)
}

fn parse_stream(buf: &[u8], off: usize) -> (r: Result<Option<u64>, LayoutWalkError>)
    ensures
        match stream_entry(buf@, off as int) {
            Ok(m) => r is Ok && r->Ok_0 == m,
            Err(e) => r is Err && r->Err_0 == e,
        },
        r is Ok ==> off + STREAM_LEN <= buf@.len(),
{
    assert(buf.len() == buf@.len());
    match check_span(buf, off, STREAM_LEN, "STREAM_LAYOUT_ENTRY") {
        Ok(_) => {},
        Err(e) => {
            return Err(e);
        },
    }
    let len = le::u32_at(buf, off + 44);
    if len % 2 != 0 {
        return Err(
            LayoutWalkError::OddUtf16Length {
                what: "STREAM_LAYOUT_ENTRY.StreamIdentifierLength",
                offset: off,
                len,
            },
        );
    }
    match check_span(buf, off + STREAM_LEN, len as usize, "STREAM_LAYOUT_ENTRY.StreamIdentifier") {
        Ok(_) => {},
        Err(e) => {
            return Err(e);
        },
    }
    let at = off + STREAM_LEN;
    let id = vstd::slice::slice_subrange(buf, at, at + len as usize);
    if is_unnamed_data_identifier(id) {
        let size = le::i64_at(buf, off + 24);
        Ok(
            Some(
                if size > 0 {
                    size as u64
                } else {
                    0
                },
            ),
        )
    } else {
        Ok(None)
    }
}

fn parse_streams(buf: &[u8], first: usize) -> (r: Result<Option<u64>, LayoutWalkError>)
    ensures
        match size_from(buf@, first as int, None) {
            Ok(m) => r is Ok && r->Ok_0 == m,
            Err(e) => r is Err && r->Err_0 == e,
        },
{
    let mut size: Option<u64> = None;
    let mut off = first;
    loop
        invariant
            size_from(buf@, first as int, None) == size_from(buf@, off as int, size),
        decreases buf@.len() - off,
    {
        let here = match parse_stream(buf, off) {
            Ok(here) => here,
            Err(e) => {
                return Err(e);
            },
        };
        if size.is_none() {
            size = here;
        }
        assert(buf.len() == buf@.len());
        let rel = le::u32_at(buf, off + 4);
        if rel == 0 {
            return Ok(size);
        }
        match follow_offset(buf, off, rel, STREAM_LEN, "STREAM_LAYOUT_ENTRY.NextStreamOffset") {
            Ok(next) => {
                off = next;
            },
            Err(e) => {
                return Err(e);
            },
        }
    }
}

fn parse_file_names(buf: &[u8], off: usize) -> (r: Result<Vec<LayoutName>, LayoutWalkError>)
    requires
        off + FILE_LEN <= buf@.len(),
    ensures
        match file_names(buf@, off as int) {
            Ok(m) => r is Ok && name_models(r->Ok_0@) == m,
            Err(e) => r is Err && r->Err_0 == e,
        },
{
    assert(buf.len() == buf@.len());
    let rel = le::u32_at(buf, off + 24);
    if rel == 0 {
        let none: Vec<LayoutName> = Vec::new();
        assert(name_models(none@) =~= Seq::<NameModel>::empty());
        return Ok(none);
    }
    match follow_offset(buf, off, rel, FILE_LEN, "FILE_LAYOUT_ENTRY.FirstNameOffset") {
        Ok(at) => parse_names(buf, at),
        Err(e) => Err(e),
    }
}

fn parse_file_mtime(buf: &[u8], off: usize) -> (r: Result<Option<i64>, LayoutWalkError>)
    requires
        off + FILE_LEN <= buf@.len(),
    ensures
        match file_mtime(buf@, off as int) {
            Ok(m) => r is Ok && r->Ok_0 == m,
            Err(e) => r is Err && r->Err_0 == e,
        },
{
    assert(buf.len() == buf@.len());
    let rel = le::u32_at(buf, off + 32);
    if rel == 0 {
        return Ok(None);
    }
    let at = match follow_offset(buf, off, rel, FILE_LEN, "FILE_LAYOUT_ENTRY.ExtraInfoOffset") {
        Ok(at) => at,
        Err(e) => {
            return Err(e);
        },
    };
    let declared = le::u32_at(buf, off + 36) as usize;
    let available = if declared == 0 {
        INFO_ENTRY_LEGACY_LEN
    } else {
        declared
    };
    if available < INFO_LEN {
        return Ok(None);
    }
    match check_span(buf, at, INFO_LEN, "FILE_LAYOUT_INFO_ENTRY") {
        Ok(_) => Ok(Some(le::i64_at(buf, at + 16))),
        Err(e) => Err(e),
    }
}

fn parse_file_size(buf: &[u8], off: usize) -> (r: Result<Option<u64>, LayoutWalkError>)
    requires
        off + FILE_LEN <= buf@.len(),
    ensures
        match file_size(buf@, off as int) {
            Ok(m) => r is Ok && r->Ok_0 == m,
            Err(e) => r is Err && r->Err_0 == e,
        },
{
    assert(buf.len() == buf@.len());
    let rel = le::u32_at(buf, off + 28);
    if rel == 0 {
        return Ok(None);
    }
    let is_dir = le::u32_at(buf, off + 12) & FILE_ATTRIBUTE_DIRECTORY != 0;
    match follow_offset(buf, off, rel, FILE_LEN, "FILE_LAYOUT_ENTRY.FirstStreamOffset") {
        Ok(at) => match parse_streams(buf, at) {
            Ok(size) => if is_dir {
                Ok(None)
            } else {
                Ok(size)
            },
            Err(e) => Err(e),
        },
        Err(e) => Err(e),
    }
}

/// Reads the file whose entry is at `off`.
fn parse_file(buf: &[u8], off: usize) -> (r: Result<LayoutFile, LayoutWalkError>)
    requires
        off + FILE_LEN <= buf@.len(),
    ensures
        match file_entry(buf@, off as int) {
            Ok(m) => r is Ok && r->Ok_0.model() == m,
            Err(e) => r is Err && r->Err_0 == e,
        },
{
    assert(buf.len() == buf@.len());
    let names = match parse_file_names(buf, off) {
        Ok(names) => names,
        Err(e) => {
            return Err(e);
        },
    };
    let mtime_ft = match parse_file_mtime(buf, off) {
        Ok(mtime_ft) => mtime_ft,
        Err(e) => {
            return Err(e);
        },
    };
    let size = match parse_file_size(buf, off) {
        Ok(size) => size,
        Err(e) => {
            return Err(e);
        },
    };
    Ok(
        LayoutFile {
            frn: Frn(le::u64_at(buf, off + 16)),
            attributes: le::u32_at(buf, off + 12),
            size,
            mtime_ft,
            names,
        },
    )
}

/// Walks a whole buffer.
pub fn walk_layout_buffer(buf: &[u8]) -> (r: Result<Vec<LayoutFile>, LayoutWalkError>)
    ensures
        match files_in(buf@) {
            Ok(m) => r is Ok && file_models(r->Ok_0@) == m,
            Err(e) => r is Err && r->Err_0 == e,
        },
{
    let mut files: Vec<LayoutFile> = Vec::new();
    assert(file_models(files@) =~= Seq::<FileModel>::empty());
    if buf.len() == 0 {
        return Ok(files);
    }
    match check_span(buf, 0, HEADER_LEN, "QUERY_FILE_LAYOUT_OUTPUT") {
        Ok(_) => {},
        Err(e) => {
            return Err(e);
        },
    }
    let count = le::u32_at(buf, 0);
    if count == 0 {
        return Ok(files);
    }
    let first = match follow_offset(
        buf,
        0,
        le::u32_at(buf, 4),
        HEADER_LEN,
        "QUERY_FILE_LAYOUT_OUTPUT.FirstFileOffset",
    ) {
        Ok(at) => at,
        Err(e) => {
            return Err(e);
        },
    };
    let mut off = first;
    proof {
        match files_from(buf@, off as int) {
            Ok(s) => assert(file_models(files@) + s =~= s),
            Err(_) => {},
        }
    }
    loop
        invariant
            files_in(buf@) == behind(file_models(files@), files_from(buf@, off as int)),
        decreases buf@.len() - off,
    {
        match check_span(buf, off, FILE_LEN, "FILE_LAYOUT_ENTRY") {
            Ok(_) => {},
            Err(e) => {
                return Err(e);
            },
        }
        let ghost before = file_models(files@);
        let file = match parse_file(buf, off) {
            Ok(file) => file,
            Err(e) => {
                return Err(e);
            },
        };
        assert(file_models(files@.push(file)) =~= before + seq![file.model()]);
        files.push(file);
        assert(buf.len() == buf@.len());
        let rel = le::u32_at(buf, off + 4);
        if rel == 0 {
            return Ok(files);
        }
        match follow_offset(buf, off, rel, FILE_LEN, "FILE_LAYOUT_ENTRY.NextFileOffset") {
            Ok(next) => {
                proof {
                    match files_from(buf@, next as int) {
                        Ok(s) => assert(before + (seq![file.model()] + s) =~= file_models(files@)
                            + s),
                        Err(_) => {},
                    }
                }
                off = next;
            },
            Err(e) => {
                return Err(e);
            },
        }
    }
}

} // verus!
