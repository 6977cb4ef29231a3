//! What holds of every file-layout buffer.

use crate::layout::parse;
use crate::layout::parse::{
    FileModel, LayoutWalkError, NameModel, FILE_ATTRIBUTE_DIRECTORY, FILE_LAYOUT_NAME_ENTRY_DOS,
    FILE_LAYOUT_NAME_ENTRY_PRIMARY, FILE_LEN, HEADER_LEN, INFO_ENTRY_LEGACY_LEN, INFO_LEN,
    MAX_NAME_BYTES, NAME_LEN, STREAM_LEN,
};
use crate::le;
use crate::types::Frn;
use crate::wtf8;
use vstd::prelude::*;

verus! {

/// The buffers have the same length, and the same bytes from `lo` on.
spec fn alike(a: Seq<u8>, b: Seq<u8>, lo: int) -> bool {
    &&& a.len() == b.len()
    &&& forall|i: int| lo <= i < a.len() ==> #[trigger] a[i] == b[i]
}

proof fn lemma_le_alike(a: Seq<u8>, b: Seq<u8>, lo: int, at: int, n: nat)
    requires
        alike(a, b, lo),
        0 <= lo <= at,
        at + n <= a.len(),
    ensures
        le::le(a, at, n) == le::le(b, at, n),
{
    assert(a.subrange(at, at + n) =~= b.subrange(at, at + n));
    le::lemma_le_same(a, at, b, at, n);
}

proof fn lemma_name_alike(a: Seq<u8>, b: Seq<u8>, lo: int, off: int)
    requires
        alike(a, b, lo),
        0 <= lo <= off,
    ensures
        parse::name_entry(a, off) == parse::name_entry(b, off),
        off + NAME_LEN <= a.len() ==> le::le(a, off, 4) == le::le(b, off, 4),
{
    if off + NAME_LEN <= a.len() {
        lemma_le_alike(a, b, lo, off, 4);
        lemma_le_alike(a, b, lo, off + 4, 4);
        lemma_le_alike(a, b, lo, off + 8, 8);
        lemma_le_alike(a, b, lo, off + 16, 4);
        let len = le::le(a, off + 16, 4) as int;
        if off + NAME_LEN + len <= a.len() {
            assert forall|i: int| 0 <= i < len / 2 implies le::le(a, off + NAME_LEN + 2 * i, 2)
                == #[trigger] le::le(b, off + NAME_LEN + 2 * i, 2) by {
                lemma_le_alike(a, b, lo, off + NAME_LEN + 2 * i, 2);
            }
            assert(le::units(a, off + NAME_LEN, len) =~= le::units(b, off + NAME_LEN, len));
        }
    }
}

proof fn lemma_names_alike(a: Seq<u8>, b: Seq<u8>, lo: int, off: int)
    requires
        alike(a, b, lo),
        0 <= lo <= off,
    ensures
        parse::names_from(a, off) == parse::names_from(b, off),
    decreases a.len() - off,
{
    lemma_name_alike(a, b, lo, off);
    if let Ok(name) = parse::name_entry(a, off) {
        let rel = le::le(a, off, 4) as int;
        if rel != 0 {
            let what = "FILE_LAYOUT_NAME_ENTRY.NextNameOffset";
            if let Ok(next) = parse::linked(a, off, rel, NAME_LEN as int, what) {
                lemma_names_alike(a, b, lo, next);
            }
        }
    }
}

proof fn lemma_stream_alike(a: Seq<u8>, b: Seq<u8>, lo: int, off: int)
    requires
        alike(a, b, lo),
        0 <= lo <= off,
    ensures
        parse::stream_entry(a, off) == parse::stream_entry(b, off),
        off + STREAM_LEN <= a.len() ==> le::le(a, off + 4, 4) == le::le(b, off + 4, 4),
{
    if off + STREAM_LEN <= a.len() {
        lemma_le_alike(a, b, lo, off + 4, 4);
        lemma_le_alike(a, b, lo, off + 24, 8);
        lemma_le_alike(a, b, lo, off + 44, 4);
        let len = le::le(a, off + 44, 4) as int;
        if off + STREAM_LEN + len <= a.len() {
            let at = off + STREAM_LEN;
            assert(a.subrange(at, at + len) =~= b.subrange(at, at + len));
        }
    }
}

proof fn lemma_size_alike(a: Seq<u8>, b: Seq<u8>, lo: int, off: int, size: Option<u64>)
    requires
        alike(a, b, lo),
        0 <= lo <= off,
    ensures
        parse::size_from(a, off, size) == parse::size_from(b, off, size),
    decreases a.len() - off,
{
    lemma_stream_alike(a, b, lo, off);
    if let Ok(here) = parse::stream_entry(a, off) {
        let known = if size is Some {
            size
        } else {
            here
        };
        let rel = le::le(a, off + 4, 4) as int;
        if rel != 0 {
            let what = "STREAM_LAYOUT_ENTRY.NextStreamOffset";
            if let Ok(next) = parse::linked(a, off, rel, STREAM_LEN as int, what) {
                lemma_size_alike(a, b, lo, next, known);
            }
        }
    }
}

proof fn lemma_file_alike(a: Seq<u8>, b: Seq<u8>, lo: int, off: int)
    requires
        alike(a, b, lo),
        0 <= lo <= off,
        off + FILE_LEN <= a.len(),
    ensures
        parse::file_entry(a, off) == parse::file_entry(b, off),
        le::le(a, off + 4, 4) == le::le(b, off + 4, 4),
{
    lemma_le_alike(a, b, lo, off + 4, 4);
    lemma_le_alike(a, b, lo, off + 12, 4);
    lemma_le_alike(a, b, lo, off + 16, 8);
    lemma_le_alike(a, b, lo, off + 24, 4);
    lemma_le_alike(a, b, lo, off + 28, 4);
    lemma_le_alike(a, b, lo, off + 32, 4);
    lemma_le_alike(a, b, lo, off + 36, 4);
    let first = le::le(a, off + 24, 4) as int;
    if first >= FILE_LEN {
        lemma_names_alike(a, b, lo, off + first);
    }
    let stream = le::le(a, off + 28, 4) as int;
    if stream >= FILE_LEN {
        lemma_size_alike(a, b, lo, off + stream, None);
    }
    let info = le::le(a, off + 32, 4) as int;
    if info >= FILE_LEN && off + info + INFO_LEN <= a.len() {
        lemma_le_alike(a, b, lo, off + info + 16, 8);
    }
}

proof fn lemma_files_alike(a: Seq<u8>, b: Seq<u8>, lo: int, off: int)
    requires
        alike(a, b, lo),
        0 <= lo <= off,
    ensures
        parse::files_from(a, off) == parse::files_from(b, off),
    decreases a.len() - off,
{
    if off + FILE_LEN <= a.len() {
        lemma_file_alike(a, b, lo, off);
        if let Ok(file) = parse::file_entry(a, off) {
            let rel = le::le(a, off + 4, 4) as int;
            if rel != 0 {
                let what = "FILE_LAYOUT_ENTRY.NextFileOffset";
                if let Ok(next) = parse::linked(a, off, rel, FILE_LEN as int, what) {
                    lemma_files_alike(a, b, lo, next);
                }
            }
        }
    }
}

/// The number of files in the header is a hint: it says whether there are any,
/// and where the chain of files leads is what counts.
pub proof fn law_file_count_is_a_hint(a: Seq<u8>, b: Seq<u8>)
    requires
        a.len() == b.len(),
        a.len() >= HEADER_LEN,
        a.skip(4) == b.skip(4),
        le::le(a, 0, 4) != 0,
        le::le(b, 0, 4) != 0,
    ensures
        parse::files_in(a) == parse::files_in(b),
{
    assert forall|i: int| 4 <= i < a.len() implies #[trigger] a[i] == b[i] by {
        assert(a.skip(4)[i - 4] == a[i]);
        assert(b.skip(4)[i - 4] == b[i]);
    }
    lemma_le_alike(a, b, 4, 4, 4);
    let first = le::le(a, 4, 4) as int;
    if first >= HEADER_LEN {
        lemma_files_alike(a, b, 4, first);
    }
}

/// A buffer without files holds none, whatever is behind the header.
pub proof fn law_no_files_without_count(buf: Seq<u8>)
    requires
        buf.len() == 0 || (buf.len() >= HEADER_LEN && le::le(buf, 0, 4) == 0),
    ensures
        parse::files_in(buf) == Ok::<Seq<FileModel>, LayoutWalkError>(seq![]),
{
}

/// A name as it is laid out.
pub ghost struct NamePart {
    pub parent_frn: Frn,
    pub units: Seq<u16>,
    pub flags: u32,
}

/// A stream as it is laid out.
pub ghost struct StreamPart {
    pub end: i64,
    pub identifier: Seq<u16>,
}

/// A file as it is laid out.
pub ghost struct FilePart {
    pub frn: Frn,
    pub attributes: u32,
    pub names: Seq<NamePart>,
    pub mtime: Option<i64>,
    pub streams: Seq<StreamPart>,
}

/// The bytes of a name; the next one starts `next` bytes on.
pub open spec fn name_bytes(n: NamePart, next: nat) -> Seq<u8> {
    le::le_bytes(next, 4) + le::le_bytes(n.flags as nat, 4) + le::le_bytes(
        n.parent_frn.0 as nat,
        8,
    ) + le::le_bytes(2 * n.units.len(), 4) + le::le_bytes(0, 4) + le::unit_bytes(n.units)
}

/// The bytes of a chain of names.
pub open spec fn names_bytes(names: Seq<NamePart>) -> Seq<u8>
    decreases names.len(),
{
    if names.len() == 0 {
        Seq::empty()
    } else if names.len() == 1 {
        name_bytes(names[0], 0)
    } else {
        name_bytes(names[0], NAME_LEN as nat + 2 * names[0].units.len()) + names_bytes(
            names.drop_first(),
        )
    }
}

/// The bytes of a stream; the next one starts `next` bytes on.
pub open spec fn stream_bytes(s: StreamPart, next: nat) -> Seq<u8> {
    le::le_bytes(1, 4) + le::le_bytes(next, 4) + le::le_bytes(0, 8) + le::le_bytes(0, 8)
        + le::le_bytes(le::unsigned(s.end as int), 8) + le::le_bytes(0, 8) + le::le_bytes(0, 4)
        + le::le_bytes(2 * s.identifier.len(), 4) + le::unit_bytes(s.identifier)
}

/// The bytes of a chain of streams.
pub open spec fn streams_bytes(streams: Seq<StreamPart>) -> Seq<u8>
    decreases streams.len(),
{
    if streams.len() == 0 {
        Seq::empty()
    } else if streams.len() == 1 {
        stream_bytes(streams[0], 0)
    } else {
        stream_bytes(streams[0], STREAM_LEN as nat + 2 * streams[0].identifier.len())
            + streams_bytes(streams.drop_first())
    }
}

/// The bytes of the times.
pub open spec fn info_bytes(mtime: Option<i64>) -> Seq<u8> {
    match mtime {
        None => Seq::empty(),
        Some(t) => le::le_bytes(0, 8) + le::le_bytes(0, 8) + le::le_bytes(
            le::unsigned(t as int),
            8,
        ) + Seq::new(32, |i: int| 0u8),
    }
}

/// The bytes behind the entry of a file.
pub open spec fn parts_bytes(f: FilePart) -> Seq<u8> {
    names_bytes(f.names) + info_bytes(f.mtime) + streams_bytes(f.streams)
}

/// Where a part is, if it is there.
pub open spec fn part_at(there: bool, at: int) -> nat {
    if there {
        at as nat
    } else {
        0
    }
}

/// The bytes of a file and its parts; the next file starts `next` bytes on.
pub open spec fn file_bytes(f: FilePart, next: nat) -> Seq<u8> {
    let names = names_bytes(f.names);
    let info = info_bytes(f.mtime);
    le::le_bytes(1, 4) + le::le_bytes(next, 4) + le::le_bytes(0, 4) + le::le_bytes(
        f.attributes as nat,
        4,
    ) + le::le_bytes(f.frn.0 as nat, 8) + le::le_bytes(
        part_at(f.names.len() > 0, FILE_LEN as int),
        4,
    ) + le::le_bytes(
        part_at(f.streams.len() > 0, FILE_LEN + names.len() + info.len()),
        4,
    ) + le::le_bytes(part_at(f.mtime is Some, FILE_LEN + names.len()), 4) + le::le_bytes(
        part_at(f.mtime is Some, INFO_ENTRY_LEGACY_LEN as int),
        4,
    ) + parts_bytes(f)
}

/// The bytes of a chain of files.
pub open spec fn files_bytes(files: Seq<FilePart>) -> Seq<u8>
    decreases files.len(),
{
    if files.len() == 0 {
        Seq::empty()
    } else if files.len() == 1 {
        file_bytes(files[0], 0)
    } else {
        file_bytes(files[0], FILE_LEN as nat + parts_bytes(files[0]).len()) + files_bytes(
            files.drop_first(),
        )
    }
}

/// The bytes of a buffer with the files.
pub open spec fn layout_bytes(files: Seq<FilePart>) -> Seq<u8> {
    le::le_bytes(files.len(), 4) + le::le_bytes(part_at(files.len() > 0, HEADER_LEN as int), 4)
        + le::le_bytes(0, 8) + files_bytes(files)
}

/// The name that is read.
pub open spec fn name_told(n: NamePart) -> NameModel {
    NameModel {
        parent_frn: n.parent_frn,
        name: wtf8::wtf8_of_units(n.units),
        name_lossy: wtf8::has_lone(n.units),
        dos_only: n.flags & FILE_LAYOUT_NAME_ENTRY_DOS != 0 && n.flags
            & FILE_LAYOUT_NAME_ENTRY_PRIMARY == 0,
    }
}

/// The size of the first unnamed data stream, unless it is known already.
pub open spec fn size_told(streams: Seq<StreamPart>, size: Option<u64>) -> Option<u64>
    decreases streams.len(),
{
    if streams.len() == 0 || size is Some {
        size
    } else {
        let s = streams[0];
        size_told(
            streams.drop_first(),
            if parse::unnamed_data(le::unit_bytes(s.identifier)) {
                Some(
                    if s.end > 0 {
                        s.end as u64
                    } else {
                        0
                    },
                )
            } else {
                None
            },
        )
    }
}

/// The file that is read.
pub open spec fn file_told(f: FilePart) -> FileModel {
    FileModel {
        frn: f.frn,
        attributes: f.attributes,
        size: if f.attributes & FILE_ATTRIBUTE_DIRECTORY != 0 {
            None
        } else {
            size_told(f.streams, None)
        },
        mtime_ft: f.mtime,
        names: f.names.map_values(|n: NamePart| name_told(n)),
    }
}

/// The names are no longer than a path component may be.
pub open spec fn names_fit(f: FilePart) -> bool {
    forall|k: int| 0 <= k < f.names.len() ==> 2 * (#[trigger] f.names[k]).units.len() <= MAX_NAME_BYTES
}

/// The names are no longer than they may be, and the offsets between the file
/// and its parts, and to the next file, fit in their fields.
pub open spec fn file_fits(f: FilePart) -> bool {
    names_fit(f) && FILE_LEN + parts_bytes(f).len() <= u32::MAX
}

/// What lies in `a` from `i` on lies in `b` from `j` on.
spec fn sits(a: Seq<u8>, i: int, b: Seq<u8>, j: int) -> bool {
    &&& 0 <= i <= a.len()
    &&& 0 <= j
    &&& j + (a.len() - i) <= b.len()
    &&& forall|k: int| 0 <= k < a.len() - i ==> #[trigger] b[j + k] == a[i + k]
}

proof fn lemma_sits_on(a: Seq<u8>, i: int, b: Seq<u8>, j: int, d: int)
    requires
        sits(a, i, b, j),
        0 <= d <= a.len() - i,
    ensures
        sits(a, i + d, b, j + d),
{
    assert forall|k: int| 0 <= k < a.len() - i - d implies #[trigger] b[j + d + k] == a[i + d + k] by {
        assert(b[j + (d + k)] == a[i + (d + k)]);
    }
}

proof fn lemma_le_sits(a: Seq<u8>, i: int, b: Seq<u8>, j: int, d: int, n: nat)
    requires
        sits(a, i, b, j),
        0 <= d,
        d + n <= a.len() - i,
    ensures
        le::le(a, i + d, n) == le::le(b, j + d, n),
{
    lemma_sits_on(a, i, b, j, d);
    let s = a.subrange(i + d, i + d + n);
    let t = b.subrange(j + d, j + d + n);
    assert forall|k: int| 0 <= k < n implies #[trigger] s[k] == t[k] by {
        assert(b[(j + d) + k] == a[(i + d) + k]);
    }
    assert(s =~= t);
    le::lemma_le_same(a, i + d, b, j + d, n);
}

proof fn lemma_name_sits(a: Seq<u8>, i: int, b: Seq<u8>, j: int)
    requires
        sits(a, i, b, j),
        parse::name_entry(a, i) is Ok,
    ensures
        parse::name_entry(b, j) == parse::name_entry(a, i),
        le::le(b, j, 4) == le::le(a, i, 4),
        i + NAME_LEN <= a.len(),
{
    lemma_le_sits(a, i, b, j, 0, 4);
    lemma_le_sits(a, i, b, j, 4, 4);
    lemma_le_sits(a, i, b, j, 8, 8);
    lemma_le_sits(a, i, b, j, 16, 4);
    let len = le::le(a, i + 16, 4) as int;
    let u = le::units(a, i + NAME_LEN, len);
    let w = le::units(b, j + NAME_LEN, len);
    assert forall|k: int| 0 <= k < u.len() implies #[trigger] u[k] == w[k] by {
        lemma_le_sits(a, i, b, j, NAME_LEN + 2 * k, 2);
    }
    assert(u =~= w);
}

proof fn lemma_names_sit(a: Seq<u8>, i: int, b: Seq<u8>, j: int)
    requires
        sits(a, i, b, j),
        parse::names_from(a, i) is Ok,
    ensures
        parse::names_from(b, j) == parse::names_from(a, i),
    decreases a.len() - i,
{
    lemma_name_sits(a, i, b, j);
    let rel = le::le(a, i, 4) as int;
    if rel != 0 {
        lemma_sits_on(a, i, b, j, rel);
        lemma_names_sit(a, i + rel, b, j + rel);
    }
}

proof fn lemma_stream_sits(a: Seq<u8>, i: int, b: Seq<u8>, j: int)
    requires
        sits(a, i, b, j),
        parse::stream_entry(a, i) is Ok,
    ensures
        parse::stream_entry(b, j) == parse::stream_entry(a, i),
        le::le(b, j + 4, 4) == le::le(a, i + 4, 4),
        i + STREAM_LEN <= a.len(),
{
    lemma_le_sits(a, i, b, j, 4, 4);
    lemma_le_sits(a, i, b, j, 24, 8);
    lemma_le_sits(a, i, b, j, 44, 4);
    let len = le::le(a, i + 44, 4) as int;
    let u = a.subrange(i + STREAM_LEN, i + STREAM_LEN + len);
    let w = b.subrange(j + STREAM_LEN, j + STREAM_LEN + len);
    lemma_sits_on(a, i, b, j, STREAM_LEN as int);
    assert forall|k: int| 0 <= k < u.len() implies #[trigger] u[k] == w[k] by {
        assert(b[(j + STREAM_LEN) + k] == a[(i + STREAM_LEN) + k]);
    }
    assert(u =~= w);
}

proof fn lemma_size_sits(a: Seq<u8>, i: int, b: Seq<u8>, j: int, size: Option<u64>)
    requires
        sits(a, i, b, j),
        parse::size_from(a, i, size) is Ok,
    ensures
        parse::size_from(b, j, size) == parse::size_from(a, i, size),
    decreases a.len() - i,
{
    lemma_stream_sits(a, i, b, j);
    let known = if size is Some {
        size
    } else {
        parse::stream_entry(a, i)->Ok_0
    };
    let rel = le::le(a, i + 4, 4) as int;
    if rel != 0 {
        lemma_sits_on(a, i, b, j, rel);
        lemma_size_sits(a, i + rel, b, j + rel, known);
    }
}

proof fn lemma_file_sits(a: Seq<u8>, i: int, b: Seq<u8>, j: int)
    requires
        sits(a, i, b, j),
        i + FILE_LEN <= a.len(),
        parse::file_entry(a, i) is Ok,
    ensures
        parse::file_entry(b, j) == parse::file_entry(a, i),
        le::le(b, j + 4, 4) == le::le(a, i + 4, 4),
{
    lemma_le_sits(a, i, b, j, 4, 4);
    lemma_le_sits(a, i, b, j, 12, 4);
    lemma_le_sits(a, i, b, j, 16, 8);
    lemma_le_sits(a, i, b, j, 24, 4);
    lemma_le_sits(a, i, b, j, 28, 4);
    lemma_le_sits(a, i, b, j, 32, 4);
    lemma_le_sits(a, i, b, j, 36, 4);
    let first = le::le(a, i + 24, 4) as int;
    if first != 0 {
        lemma_sits_on(a, i, b, j, first);
        lemma_names_sit(a, i + first, b, j + first);
    }
    let stream = le::le(a, i + 28, 4) as int;
    if stream != 0 {
        lemma_sits_on(a, i, b, j, stream);
        lemma_size_sits(a, i + stream, b, j + stream, None);
    }
    let info = le::le(a, i + 32, 4) as int;
    let declared = le::le(a, i + 36, 4) as int;
    if info != 0 && !(declared != 0 && declared < INFO_LEN) {
        lemma_le_sits(a, i, b, j, info + 16, 8);
    }
}

proof fn lemma_files_sit(a: Seq<u8>, i: int, b: Seq<u8>, j: int)
    requires
        sits(a, i, b, j),
        parse::files_from(a, i) is Ok,
    ensures
        parse::files_from(b, j) == parse::files_from(a, i),
    decreases a.len() - i,
{
    lemma_file_sits(a, i, b, j);
    let rel = le::le(a, i + 4, 4) as int;
    if rel != 0 {
        lemma_sits_on(a, i, b, j, rel);
        lemma_files_sit(a, i + rel, b, j + rel);
    }
}


proof fn lemma_small(v: nat)
    requires
        v <= u32::MAX,
    ensures
        le::fits(v, 4),
        le::le_bytes(v, 4).len() == 4,
        le::fits(v, 8),
        le::le_bytes(v, 8).len() == 8,
{
    le::lemma_fits(v);
    le::lemma_le_bytes_len(v, 4);
    le::lemma_le_bytes_len(v, 8);
}

proof fn lemma_wide(v: nat)
    requires
        v <= u64::MAX,
    ensures
        le::fits(v, 8),
        le::le_bytes(v, 8).len() == 8,
{
    le::lemma_fits(v);
    le::lemma_le_bytes_len(v, 8);
}

proof fn lemma_name_read(n: NamePart, next: nat)
    requires
        next <= u32::MAX,
        2 * n.units.len() <= MAX_NAME_BYTES,
    ensures
        name_bytes(n, next).len() == NAME_LEN + 2 * n.units.len(),
        parse::name_entry(name_bytes(n, next), 0) == Ok::<NameModel, LayoutWalkError>(name_told(n)),
        le::le(name_bytes(n, next), 0, 4) == next,
{
    let b = name_bytes(n, next);
    lemma_small(next);
    lemma_small(n.flags as nat);
    lemma_wide(n.parent_frn.0 as nat);
    lemma_small(2 * n.units.len());
    lemma_small(0);
    assert(b.subrange(0, 4) =~= le::le_bytes(next, 4));
    assert(b.subrange(4, 8) =~= le::le_bytes(n.flags as nat, 4));
    assert(b.subrange(8, 16) =~= le::le_bytes(n.parent_frn.0 as nat, 8));
    assert(b.subrange(16, 20) =~= le::le_bytes(2 * n.units.len(), 4));
    let at = NAME_LEN as int;
    assert(b.subrange(at, at + 2 * n.units.len()) =~= le::unit_bytes(n.units));
    le::lemma_le_at(b, 0, next, 4);
    le::lemma_le_at(b, 4, n.flags as nat, 4);
    le::lemma_le_at(b, 8, n.parent_frn.0 as nat, 8);
    le::lemma_le_at(b, 16, 2 * n.units.len(), 4);
    le::lemma_units(b, at, n.units);
}

/// A part at the front of a buffer sits there.
proof fn lemma_front(a: Seq<u8>, b: Seq<u8>)
    ensures
        sits(a, 0, a + b, 0),
{
}

/// A part behind another sits there.
proof fn lemma_back(a: Seq<u8>, b: Seq<u8>)
    ensures
        sits(b, 0, a + b, a.len() as int),
{
}

proof fn lemma_names_read(names: Seq<NamePart>)
    requires
        names.len() > 0,
        forall|k: int|
            0 <= k < names.len() ==> 2 * (#[trigger] names[k]).units.len() <= MAX_NAME_BYTES,
    ensures
        names_bytes(names).len() > 0,
        parse::names_from(names_bytes(names), 0) == Ok::<Seq<NameModel>, LayoutWalkError>(
            names.map_values(|n: NamePart| name_told(n)),
        ),
    decreases names.len(),
{
    let n = names[0];
    let told = names.map_values(|n: NamePart| name_told(n));
    if names.len() == 1 {
        lemma_name_read(n, 0);
        assert(told =~= seq![name_told(n)]);
    } else {
        let rest = names.drop_first();
        assert forall|k: int| 0 <= k < rest.len() implies 2 * (#[trigger] rest[k]).units.len()
            <= MAX_NAME_BYTES by {
            assert(rest[k] == names[k + 1]);
        }
        lemma_names_read(rest);
        let next = NAME_LEN as nat + 2 * n.units.len();
        lemma_name_read(n, next);
        let a = name_bytes(n, next);
        let c = names_bytes(rest);
        let b = names_bytes(names);
        assert(b == a + c);
        lemma_front(a, c);
        lemma_back(a, c);
        lemma_name_sits(a, 0, b, 0);
        lemma_names_sit(c, 0, b, a.len() as int);
        assert(told =~= seq![name_told(n)] + rest.map_values(|n: NamePart| name_told(n)));
    }
}

proof fn lemma_stream_read(s: StreamPart, next: nat)
    requires
        next <= u32::MAX,
        2 * s.identifier.len() <= u32::MAX,
    ensures
        stream_bytes(s, next).len() == STREAM_LEN + 2 * s.identifier.len(),
        parse::stream_entry(stream_bytes(s, next), 0) == Ok::<Option<u64>, LayoutWalkError>(
            if parse::unnamed_data(le::unit_bytes(s.identifier)) {
                Some(
                    if s.end > 0 {
                        s.end as u64
                    } else {
                        0
                    },
                )
            } else {
                None
            },
        ),
        le::le(stream_bytes(s, next), 4, 4) == next,
{
    let b = stream_bytes(s, next);
    let end = le::unsigned(s.end as int);
    lemma_small(next);
    lemma_small(1);
    lemma_small(0);
    lemma_wide(end);
    lemma_small(2 * s.identifier.len());
    let n = 2 * s.identifier.len();
    assert(b.subrange(4, 8) =~= le::le_bytes(next, 4));
    assert(b.subrange(24, 32) =~= le::le_bytes(end, 8));
    assert(b.subrange(44, 48) =~= le::le_bytes(n, 4));
    assert(b.subrange(STREAM_LEN as int, STREAM_LEN + n as int) =~= le::unit_bytes(s.identifier));
    le::lemma_le_at(b, 4, next, 4);
    le::lemma_le_at(b, 24, end, 8);
    le::lemma_le_at(b, 44, n, 4);
    assert(le::signed(end) == s.end);
}

proof fn lemma_streams_read(streams: Seq<StreamPart>, size: Option<u64>)
    requires
        streams.len() > 0,
        streams_bytes(streams).len() <= u32::MAX,
    ensures
        streams_bytes(streams).len() > 0,
        parse::size_from(streams_bytes(streams), 0, size) == Ok::<Option<u64>, LayoutWalkError>(
            size_told(streams, size),
        ),
    decreases streams.len(),
{
    let s = streams[0];
    let rest = streams.drop_first();
    let next = STREAM_LEN as nat + 2 * s.identifier.len();
    lemma_streams_len(streams);
    let here = if parse::unnamed_data(le::unit_bytes(s.identifier)) {
        Some(
            if s.end > 0 {
                s.end as u64
            } else {
                0
            },
        )
    } else {
        None
    };
    let known = if size is Some {
        size
    } else {
        here
    };
    lemma_size_told(rest, known);
    if streams.len() == 1 {
        lemma_stream_read(s, 0);
        assert(rest.len() == 0);
    } else {
        lemma_stream_read(s, next);
        let a = stream_bytes(s, next);
        let c = streams_bytes(rest);
        let b = streams_bytes(streams);
        assert(b == a + c);
        lemma_streams_read(rest, known);
        lemma_front(a, c);
        lemma_back(a, c);
        lemma_stream_sits(a, 0, b, 0);
        lemma_size_sits(c, 0, b, a.len() as int, known);
    }
}

proof fn lemma_size_told(streams: Seq<StreamPart>, size: Option<u64>)
    ensures
        size is Some || streams.len() == 0 ==> size_told(streams, size) == size,
{
}

/// The first stream is no longer than all of them.
proof fn lemma_streams_len(streams: Seq<StreamPart>)
    requires
        streams.len() > 0,
    ensures
        STREAM_LEN + 2 * streams[0].identifier.len() <= streams_bytes(streams).len(),
{
    let s = streams[0];
    assert forall|next: nat|
        #[trigger] stream_bytes(s, next).len() == STREAM_LEN + 2 * s.identifier.len() by {
        le::lemma_le_bytes_len(1, 4);
        le::lemma_le_bytes_len(next, 4);
        le::lemma_le_bytes_len(0, 8);
        le::lemma_le_bytes_len(0, 4);
        le::lemma_le_bytes_len(le::unsigned(s.end as int), 8);
        le::lemma_le_bytes_len(2 * s.identifier.len(), 4);
    }
}

proof fn lemma_info_len(mtime: Option<i64>)
    ensures
        info_bytes(mtime).len() == part_at(mtime is Some, INFO_ENTRY_LEGACY_LEN as int),
{
    if let Some(t) = mtime {
        lemma_small(0);
        lemma_wide(le::unsigned(t as int));
    }
}

#[verifier::rlimit(40)]
proof fn lemma_file_head(f: FilePart, next: nat)
    requires
        next <= u32::MAX,
        FILE_LEN + parts_bytes(f).len() <= u32::MAX,
    ensures
        ({
            let b = file_bytes(f, next);
            let names = names_bytes(f.names);
            let info = info_bytes(f.mtime);
            &&& b.len() == FILE_LEN + parts_bytes(f).len()
            &&& le::le(b, 4, 4) == next
            &&& le::le(b, 12, 4) == f.attributes
            &&& le::le(b, 16, 8) == f.frn.0
            &&& le::le(b, 24, 4) == part_at(f.names.len() > 0, FILE_LEN as int)
            &&& le::le(b, 28, 4) == part_at(
                f.streams.len() > 0,
                FILE_LEN + names.len() + info.len(),
            )
            &&& le::le(b, 32, 4) == part_at(f.mtime is Some, FILE_LEN + names.len())
            &&& le::le(b, 36, 4) == part_at(f.mtime is Some, INFO_ENTRY_LEGACY_LEN as int)
            &&& b.skip(FILE_LEN as int) == parts_bytes(f)
        }),
{
    let b = file_bytes(f, next);
    let names = names_bytes(f.names);
    let info = info_bytes(f.mtime);
    let p = part_at(f.names.len() > 0, FILE_LEN as int);
    let q = part_at(f.streams.len() > 0, FILE_LEN + names.len() + info.len());
    let t = part_at(f.mtime is Some, FILE_LEN + names.len());
    let d = part_at(f.mtime is Some, INFO_ENTRY_LEGACY_LEN as int);
    lemma_small(1);
    lemma_small(next);
    lemma_small(0);
    lemma_small(f.attributes as nat);
    lemma_wide(f.frn.0 as nat);
    lemma_small(p);
    lemma_small(q);
    lemma_small(t);
    lemma_small(d);
    assert(b.subrange(4, 8) =~= le::le_bytes(next, 4));
    assert(b.subrange(12, 16) =~= le::le_bytes(f.attributes as nat, 4));
    assert(b.subrange(16, 24) =~= le::le_bytes(f.frn.0 as nat, 8));
    assert(b.subrange(24, 28) =~= le::le_bytes(p, 4));
    assert(b.subrange(28, 32) =~= le::le_bytes(q, 4));
    assert(b.subrange(32, 36) =~= le::le_bytes(t, 4));
    assert(b.subrange(36, 40) =~= le::le_bytes(d, 4));
    assert(b.skip(FILE_LEN as int) =~= parts_bytes(f));
    le::lemma_le_at(b, 4, next, 4);
    le::lemma_le_at(b, 12, f.attributes as nat, 4);
    le::lemma_le_at(b, 16, f.frn.0 as nat, 8);
    le::lemma_le_at(b, 24, p, 4);
    le::lemma_le_at(b, 28, q, 4);
    le::lemma_le_at(b, 32, t, 4);
    le::lemma_le_at(b, 36, d, 4);
}

#[verifier::rlimit(40)]
proof fn lemma_file_read(f: FilePart, next: nat)
    requires
        next <= u32::MAX,
        FILE_LEN + parts_bytes(f).len() <= u32::MAX,
        names_fit(f),
    ensures
        file_bytes(f, next).len() == FILE_LEN + parts_bytes(f).len(),
        parse::file_entry(file_bytes(f, next), 0) == Ok::<FileModel, LayoutWalkError>(file_told(f)),
        le::le(file_bytes(f, next), 4, 4) == next,
{
    let b = file_bytes(f, next);
    let names = names_bytes(f.names);
    let info = info_bytes(f.mtime);
    let streams = streams_bytes(f.streams);
    lemma_file_head(f, next);
    lemma_info_len(f.mtime);
    let tail = b.skip(FILE_LEN as int);
    assert forall|k: int| 0 <= k < tail.len() implies b[FILE_LEN + k] == #[trigger] tail[k] by {}
    assert(tail == names + info + streams);
    assert(parse::file_names(b, 0) == Ok::<Seq<NameModel>, LayoutWalkError>(
        f.names.map_values(|n: NamePart| name_told(n)),
    )) by {
        if f.names.len() > 0 {
            lemma_names_read(f.names);
            assert(sits(names, 0, b, FILE_LEN as int)) by {
                assert forall|k: int| 0 <= k < names.len() implies #[trigger] b[FILE_LEN + k]
                    == names[0 + k] by {
                    assert(tail[k] == names[k]);
                }
            }
            lemma_names_sit(names, 0, b, FILE_LEN as int);
        } else {
            assert(f.names.map_values(|n: NamePart| name_told(n)) =~= seq![]);
        }
    }
    assert(parse::file_mtime(b, 0) == Ok::<Option<i64>, LayoutWalkError>(f.mtime)) by {
        if let Some(t) = f.mtime {
            let at = FILE_LEN + names.len();
            let v = le::unsigned(t as int);
            lemma_small(0);
            lemma_wide(v);
            assert(b.subrange(at + 16, at + 24) =~= le::le_bytes(v, 8)) by {
                assert forall|k: int| 0 <= k < 8 implies #[trigger] b.subrange(at + 16, at + 24)[k]
                    == le::le_bytes(v, 8)[k] by {
                    assert(tail[names.len() + 16 + k] == info[16 + k]);
                    assert(b[FILE_LEN + (names.len() + 16 + k)] == tail[names.len() + 16 + k]);
                }
            }
            le::lemma_le_at(b, at + 16, v, 8);
            assert(le::signed(v) == t);
        }
    }
    assert(parse::file_size(b, 0) == Ok::<Option<u64>, LayoutWalkError>(file_told(f).size)) by {
        if f.streams.len() > 0 {
            let at = FILE_LEN + names.len() + info.len();
            lemma_streams_read(f.streams, None);
            assert(sits(streams, 0, b, at as int)) by {
                assert forall|k: int| 0 <= k < streams.len() implies #[trigger] b[at + k]
                    == streams[0 + k] by {
                    assert(tail[names.len() + info.len() + k] == streams[k]);
                    assert(b[FILE_LEN + (names.len() + info.len() + k)] == tail[names.len()
                        + info.len() + k]);
                }
            }
            lemma_size_sits(streams, 0, b, at as int, None);
        }
    }
}

/// A file before others is read before them.
proof fn lemma_file_before(a: Seq<u8>, c: Seq<u8>, file: FileModel, rest: Seq<FileModel>)
    requires
        a.len() >= FILE_LEN,
        parse::file_entry(a, 0) == Ok::<FileModel, LayoutWalkError>(file),
        le::le(a, 4, 4) == a.len(),
        c.len() > 0,
        parse::files_from(c, 0) == Ok::<Seq<FileModel>, LayoutWalkError>(rest),
    ensures
        parse::files_from(a + c, 0) == Ok::<Seq<FileModel>, LayoutWalkError>(seq![file] + rest),
{
    let b = a + c;
    lemma_front(a, c);
    lemma_back(a, c);
    lemma_file_sits(a, 0, b, 0);
    lemma_files_sit(c, 0, b, a.len() as int);
}

/// The last file is read alone.
proof fn lemma_file_alone(a: Seq<u8>, file: FileModel)
    requires
        a.len() >= FILE_LEN,
        parse::file_entry(a, 0) == Ok::<FileModel, LayoutWalkError>(file),
        le::le(a, 4, 4) == 0,
    ensures
        parse::files_from(a, 0) == Ok::<Seq<FileModel>, LayoutWalkError>(seq![file]),
{
}

#[verifier::rlimit(40)]
proof fn lemma_files_read(files: Seq<FilePart>)
    requires
        files.len() > 0,
        forall|k: int| 0 <= k < files.len() ==> file_fits(#[trigger] files[k]),
    ensures
        files_bytes(files).len() > 0,
        parse::files_from(files_bytes(files), 0) == Ok::<Seq<FileModel>, LayoutWalkError>(
            files.map_values(|f: FilePart| file_told(f)),
        ),
    decreases files.len(),
{
    let f = files[0];
    let told = files.map_values(|f: FilePart| file_told(f));
    assert(file_fits(files[0]));
    lemma_files_len(files);
    if files.len() == 1 {
        lemma_file_read(f, 0);
        lemma_file_alone(file_bytes(f, 0), file_told(f));
        assert(told =~= seq![file_told(f)]);
    } else {
        let rest = files.drop_first();
        assert forall|k: int| 0 <= k < rest.len() implies file_fits(#[trigger] rest[k]) by {
            assert(rest[k] == files[k + 1]);
        }
        let next = FILE_LEN as nat + parts_bytes(f).len();
        lemma_file_read(f, next);
        let a = file_bytes(f, next);
        let c = files_bytes(rest);
        let b = files_bytes(files);
        assert(b == a + c);
        lemma_files_read(rest);
        lemma_file_before(
            a,
            c,
            file_told(f),
            rest.map_values(|f: FilePart| file_told(f)),
        );
        assert(told =~= seq![file_told(f)] + rest.map_values(|f: FilePart| file_told(f)));
    }
}

/// The first file is no longer than all of them.
proof fn lemma_files_len(files: Seq<FilePart>)
    requires
        files.len() > 0,
    ensures
        FILE_LEN + parts_bytes(files[0]).len() <= files_bytes(files).len(),
{
    let f = files[0];
    let names = names_bytes(f.names);
    let info = info_bytes(f.mtime);
    assert forall|next: nat|
        #[trigger] file_bytes(f, next).len() == FILE_LEN + parts_bytes(f).len() by {
        le::lemma_le_bytes_len(1, 4);
        le::lemma_le_bytes_len(next, 4);
        le::lemma_le_bytes_len(0, 4);
        le::lemma_le_bytes_len(f.attributes as nat, 4);
        le::lemma_le_bytes_len(f.frn.0 as nat, 8);
        le::lemma_le_bytes_len(part_at(f.names.len() > 0, FILE_LEN as int), 4);
        le::lemma_le_bytes_len(
            part_at(f.streams.len() > 0, FILE_LEN + names.len() + info.len()),
            4,
        );
        le::lemma_le_bytes_len(part_at(f.mtime is Some, FILE_LEN + names.len()), 4);
        le::lemma_le_bytes_len(part_at(f.mtime is Some, INFO_ENTRY_LEGACY_LEN as int), 4);
    }
}

/// A buffer that is laid out from files is read back as those files: all of
/// them, in order, with all their names.
pub proof fn law_layout_reads_back(files: Seq<FilePart>)
    requires
        files.len() <= u32::MAX,
        forall|k: int| 0 <= k < files.len() ==> file_fits(#[trigger] files[k]),
    ensures
        parse::files_in(layout_bytes(files)) == Ok::<Seq<FileModel>, LayoutWalkError>(
            files.map_values(|f: FilePart| file_told(f)),
        ),
{
    let b = layout_bytes(files);
    let first = part_at(files.len() > 0, HEADER_LEN as int);
    lemma_small(files.len());
    lemma_small(first);
    lemma_small(0);
    assert(b.subrange(0, 4) =~= le::le_bytes(files.len(), 4));
    assert(b.subrange(4, 8) =~= le::le_bytes(first, 4));
    le::lemma_le_at(b, 0, files.len(), 4);
    le::lemma_le_at(b, 4, first, 4);
    if files.len() > 0 {
        let c = files_bytes(files);
        lemma_files_read(files);
        assert(sits(c, 0, b, HEADER_LEN as int)) by {
            assert forall|k: int| 0 <= k < c.len() implies #[trigger] b[HEADER_LEN + k] == c[0
                + k] by {}
        }
        lemma_files_sit(c, 0, b, HEADER_LEN as int);
    } else {
        assert(files.map_values(|f: FilePart| file_told(f)) =~= seq![]);
    }
}

/// A name is a mere alias if it is a DOS name and not the primary one. The size
/// of a file is that of its unnamed data stream, `::$DATA`; a directory has none.
pub proof fn law_which_names_and_streams_count(n: NamePart, id: Seq<u16>, f: FilePart)
    ensures
        name_told(n).dos_only <==> n.flags & 0x2 != 0 && n.flags & 0x1 == 0,
        parse::unnamed_data(le::unit_bytes(id)) <==> id.len() == 0 || id == seq![
            0x3Au16,
            0x3Au16,
            0x24u16,
            0x44u16,
            0x41u16,
            0x54u16,
            0x41u16,
        ],
        f.attributes & 0x10 != 0 ==> file_told(f).size is None,
        f.attributes & 0x10 == 0 && f.streams.len() > 0 && f.streams[0].identifier.len() == 0
            ==> file_told(f).size == Some(
            if f.streams[0].end > 0 {
                f.streams[0].end as u64
            } else {
                0
            },
        ),
        f.streams.len() == 0 ==> file_told(f).size is None,
        file_told(f).mtime_ft == f.mtime,
        MAX_NAME_BYTES == 510,
{
    reveal_with_fuel(size_told, 3);
    let data = seq![0x3Au16, 0x3Au16, 0x24u16, 0x44u16, 0x41u16, 0x54u16, 0x41u16];
    let b = le::unit_bytes(id);
    if id == data {
        assert(b =~= seq![
            0x3Au8,
            0x00u8,
            0x3Au8,
            0x00u8,
            0x24u8,
            0x00u8,
            0x44u8,
            0x00u8,
            0x41u8,
            0x00u8,
            0x54u8,
            0x00u8,
            0x41u8,
            0x00u8,
        ]);
    }
    if parse::unnamed_data(b) && id.len() > 0 {
        assert(b.len() == 14);
        assert forall|k: int| 0 <= k < 7 implies #[trigger] id[k] == data[k] by {
            assert(b[2 * k] == (id[k] % 256) as u8);
            assert(b[2 * k + 1] == (id[k] / 256) as u8);
            assert(id[k] == (id[k] / 256) * 256 + id[k] % 256);
        }
        assert(id =~= data);
    }
    if f.streams.len() > 0 && f.streams[0].identifier.len() == 0 {
        assert(le::unit_bytes(f.streams[0].identifier).len() == 0);
    }
}

/// The parts of a file that is read are its fields.
pub proof fn law_files_are_modelled_whole(f: parse::LayoutFile, k: int)
    requires
        0 <= k < f.names@.len(),
    ensures
        f.model().frn == f.frn,
        f.model().attributes == f.attributes,
        f.model().size == f.size,
        f.model().mtime_ft == f.mtime_ft,
        f.model().names.len() == f.names@.len(),
        f.model().names[k].parent_frn == f.names@[k].parent_frn,
        f.model().names[k].name == f.names@[k].name@,
        f.model().names[k].name_lossy == f.names@[k].name_lossy,
        f.model().names[k].dos_only == f.names@[k].dos_only,
{
}

} // verus!
