//! The compact encoding of a page of results.
//!
//! A page is a tag byte, the total and the generation (8 bytes each), a flag
//! byte, the item count (4 bytes) and the items. An item is the length of its
//! path (4 bytes), the path in WTF-8, a flag byte, and its size and time
//! (8 bytes each) where the flags say so. All numbers are little-endian.

use crate::le;
use crate::proto::types;
use crate::proto::types::{QueryResults, ResultItem};
use crate::text;
use crate::wtf8;
use vstd::prelude::*;
use vstd::string::StringExecFns;
use vstd::utf8::*;

verus! {

/// Response frame tag: the body is JSON.
pub const RESP_TAG_JSON: u8 = 0;

/// Response frame tag: the body is a page of results.
pub const RESP_TAG_RESULTS: u8 = 1;

/// A truncated or malformed page.
#[derive(Clone, Copy, Debug, PartialEq, Eq)]
pub struct BinError(&'static str);

impl BinError {
    /// What is wrong.
    pub closed spec fn what(&self) -> Seq<char> {
        self.0@
    }

    /// The error in words.
    pub fn message(&self) -> (s: String)
        ensures
            s@ == "malformed binary results page: "@ + self.what(),
    {
        let mut s = String::from_str("malformed binary results page: ");
        s.append(self.0);
        s
    }
}

/// Three flags as the low bits of a byte.
pub open spec fn flag_byte(a: bool, b: bool, c: bool) -> u8 {
    ((if a {
        1int
    } else {
        0
    }) + (if b {
        2int
    } else {
        0
    }) + (if c {
        4int
    } else {
        0
    })) as u8
}

fn flags(a: bool, b: bool, c: bool) -> (f: u8)
    ensures
        f == flag_byte(a, b, c),
{
    let x: u8 = if a {
        1
    } else {
        0
    };
    let y: u8 = if b {
        2
    } else {
        0
    };
    let z: u8 = if c {
        4
    } else {
        0
    };
    x + y + z
}

/// The bytes before the items of a page.
pub open spec fn header_bytes(
    total: u64,
    generation: u64,
    more: bool,
    volumes_incomplete: bool,
    metadata_pending: bool,
    count: nat,
) -> Seq<u8> {
    seq![RESP_TAG_RESULTS] + le::le_bytes(total as nat, 8) + le::le_bytes(generation as nat, 8)
        + seq![flag_byte(more, volumes_incomplete, metadata_pending)] + le::le_bytes(count, 4)
}

/// Writes the header of a page.
pub fn push_results_header(
    out: &mut Vec<u8>,
    total: u64,
    generation: u64,
    more: bool,
    volumes_incomplete: bool,
    metadata_pending: bool,
    count: u32,
)
    ensures
        final(out)@ == old(out)@ + header_bytes(
            total,
            generation,
            more,
            volumes_incomplete,
            metadata_pending,
            count as nat,
        ),
{
    out.push(RESP_TAG_RESULTS);
    le::push_le(out, total, 8);
    le::push_le(out, generation, 8);
    out.push(flags(more, volumes_incomplete, metadata_pending));
    le::push_le(out, count as u64, 4);
    assert(out@ =~= old(out)@ + header_bytes(
        total,
        generation,
        more,
        volumes_incomplete,
        metadata_pending,
        count as nat,
    ));
}

/// The bytes of an optional size.
pub open spec fn size_bytes(size: Option<u64>) -> Seq<u8> {
    match size {
        Some(s) => le::le_bytes(s as nat, 8),
        None => seq![],
    }
}

/// The bytes of an optional time.
pub open spec fn mtime_bytes(mtime: Option<i64>) -> Seq<u8> {
    match mtime {
        Some(m) => le::le_bytes(le::unsigned(m as int), 8),
        None => seq![],
    }
}

/// The bytes of one item. The length of the path is cut to four bytes.
pub open spec fn item_bytes(
    path: Seq<u8>,
    is_dir: bool,
    size: Option<u64>,
    mtime: Option<i64>,
) -> Seq<u8> {
    le::le_bytes(path.len(), 4) + path + seq![flag_byte(is_dir, size is Some, mtime is Some)]
        + size_bytes(size) + mtime_bytes(mtime)
}

/// Appends bytes.
fn push_bytes(out: &mut Vec<u8>, bytes: &[u8])
    ensures
        final(out)@ == old(out)@ + bytes@,
{
    out.extend_from_slice(bytes);
    assert(out@ =~= old(out)@ + bytes@);
}

/// Writes one item, given its raw path in WTF-8.
pub fn push_item(
    out: &mut Vec<u8>,
    raw_path: &[u8],
    is_dir: bool,
    size: Option<u64>,
    mtime: Option<i64>,
)
    ensures
        final(out)@ == old(out)@ + item_bytes(raw_path@, is_dir, size, mtime),
{
    le::push_le(out, raw_path.len() as u64, 4);
    push_bytes(out, raw_path);
    out.push(flags(is_dir, size.is_some(), mtime.is_some()));
    if let Some(s) = size {
        le::push_le(out, s, 8);
    }
    if let Some(m) = mtime {
        le::push_le(out, le::bits_of(m), 8);
    }
    assert(out@ =~= old(out)@ + item_bytes(raw_path@, is_dir, size, mtime));
}

/// The raw path of an item: its exact form where it has one, else its text.
pub open spec fn raw_path(item: types::ItemModel) -> Seq<u8> {
    match item.path_u16 {
        Some(units) => wtf8::wtf8_of_units(units),
        None => encode_utf8(item.path),
    }
}

/// The bytes of some items.
pub open spec fn items_bytes(items: Seq<types::ItemModel>) -> Seq<u8>
    decreases items.len(),
{
    if items.len() == 0 {
        seq![]
    } else {
        let i = items[0];
        item_bytes(raw_path(i), i.is_dir, i.size, i.mtime_ft) + items_bytes(items.drop_first())
    }
}

/// The bytes of a page, its tag included.
pub open spec fn page_bytes(page: types::PageModel) -> Seq<u8> {
    header_bytes(
        page.total,
        page.generation,
        page.more,
        page.volumes_incomplete,
        page.metadata_pending,
        page.items.len(),
    ) + items_bytes(page.items)
}

fn raw_path_bytes(item: &ResultItem) -> (raw: Vec<u8>)
    ensures
        raw@ == raw_path(item.model()),
{
    match &item.path_u16 {
        Some(units) => {
            let mut raw: Vec<u8> = Vec::new();
            wtf8::from_utf16(units.as_slice(), &mut raw);
            assert(raw@ =~= wtf8::wtf8_of_units(units@));
            raw
        },
        None => {
            let mut raw: Vec<u8> = Vec::new();
            push_bytes(&mut raw, item.path.as_str().as_bytes());
            assert(raw@ =~= encode_utf8(item.path@));
            raw
        },
    }
}

/// The low four bytes of a number depend on its low 32 bits alone.
proof fn lemma_low_bytes(v: nat)
    ensures
        le::le_bytes(v, 4) == le::le_bytes(v % 0x1_0000_0000, 4),
{
    reveal_with_fuel(le::le_bytes, 5);
    let w = v % 0x1_0000_0000;
    assert(w % 256 == v % 256);
    assert(w / 256 % 256 == v / 256 % 256);
    assert(w / 256 / 256 % 256 == v / 256 / 256 % 256);
    assert(w / 256 / 256 / 256 % 256 == v / 256 / 256 / 256 % 256);
}

/// Writes a whole page. The count of its items is cut to four bytes.
pub fn encode_results_payload(page: &QueryResults, out: &mut Vec<u8>)
    ensures
        final(out)@ == old(out)@ + page_bytes(page.model()),
{
    let count = page.items.len();
    let low = (count as u64 % 0x1_0000_0000) as u32;
    proof {
        lemma_low_bytes(count as nat);
    }
    push_results_header(
        out,
        page.total,
        page.generation,
        page.more,
        page.volumes_incomplete,
        page.metadata_pending,
        low,
    );
    let ghost header = out@;
    let ghost all = types::item_models(page.items@);
    let mut i: usize = 0;
    assert(all.subrange(0, all.len() as int) =~= all);
    assert(header + items_bytes(all) =~= out@ + items_bytes(all));
    while i < page.items.len()
        invariant
            i <= page.items@.len(),
            all == types::item_models(page.items@),
            out@ + items_bytes(all.subrange(i as int, all.len() as int)) == header + items_bytes(
                all,
            ),
        decreases page.items@.len() - i,
    {
        let it = &page.items[i];
        let raw = raw_path_bytes(it);
        let ghost rest = all.subrange(i as int, all.len() as int);
        let ghost before = out@;
        assert(rest[0] == it.model());
        assert(rest.drop_first() =~= all.subrange(i + 1, all.len() as int));
        push_item(out, raw.as_slice(), it.is_dir, it.size, it.mtime_ft);
        assert(out@ + items_bytes(rest.drop_first()) =~= before + items_bytes(rest));
        i = i + 1;
    }
    assert(all.subrange(i as int, all.len() as int) =~= Seq::<types::ItemModel>::empty());
    assert(out@ =~= header + items_bytes(all));
    assert(out@ =~= old(out)@ + page_bytes(page.model()));
}

/// Where `n` bytes from `pos` on end, or why they cannot be had.
pub open spec fn taken(body: Seq<u8>, pos: int, n: int) -> Result<int, Seq<char>> {
    if pos + n > usize::MAX {
        Err("overflow"@)
    } else if pos + n > body.len() {
        Err("truncated"@)
    } else {
        Ok(pos + n)
    }
}

/// A flag of a byte.
pub open spec fn has_flag(flags: u8, flag: u8) -> bool {
    flags & flag != 0
}

/// One item as read at some place, and where it ends.
pub ghost struct ItemRead {
    pub item: types::ItemModel,
    pub end: int,
}

/// The item at `pos`.
pub open spec fn item_at(body: Seq<u8>, pos: int) -> Result<ItemRead, Seq<char>> {
    match taken(body, pos, 4) {
        Err(e) => Err(e),
        Ok(start) => match taken(body, start, le::le(body, pos, 4) as int) {
            Err(e) => Err(e),
            Ok(end) => if end >= body.len() {
                Err("truncated"@)
            } else {
                let path = body.subrange(start, end);
                let iflags = body[end];
                let size_end = if has_flag(iflags, 2) {
                    taken(body, end + 1, 8)
                } else {
                    Ok(end + 1)
                };
                match size_end {
                    Err(e) => Err(e),
                    Ok(p) => {
                        let mtime_end = if has_flag(iflags, 4) {
                            taken(body, p, 8)
                        } else {
                            Ok(p)
                        };
                        match mtime_end {
                            Err(e) => Err(e),
                            Ok(q) => Ok(
                                ItemRead {
                                    item: types::ItemModel {
                                        path: wtf8::shown_text(path),
                                        path_u16: if valid_utf8(path) {
                                            None
                                        } else {
                                            Some(wtf8::cps_units(wtf8::decode(path)))
                                        },
                                        size: if has_flag(iflags, 2) {
                                            Some(le::le(body, end + 1, 8) as u64)
                                        } else {
                                            None
                                        },
                                        mtime_ft: if has_flag(iflags, 4) {
                                            Some(le::signed(le::le(body, p, 8)) as i64)
                                        } else {
                                            None
                                        },
                                        is_dir: has_flag(iflags, 1),
                                    },
                                    end: q,
                                },
                            ),
                        }
                    },
                }
            },
        },
    }
}

/// The `count` items from `pos` on.
pub open spec fn items_at(body: Seq<u8>, pos: int, count: nat) -> Result<
    Seq<types::ItemModel>,
    Seq<char>,
>
    decreases count,
{
    if count == 0 {
        Ok(seq![])
    } else {
        match item_at(body, pos) {
            Err(e) => Err(e),
            Ok(first) => match items_at(body, first.end, (count - 1) as nat) {
                Err(e) => Err(e),
                Ok(rest) => Ok(seq![first.item] + rest),
            },
        }
    }
}

/// The page that `body`, the bytes behind the tag, spells. Bytes behind the
/// last item are ignored.
pub open spec fn page_in(body: Seq<u8>) -> Result<types::PageModel, Seq<char>> {
    if body.len() < 21 {
        Err("truncated"@)
    } else {
        match items_at(body, 21, le::le(body, 17, 4)) {
            Err(e) => Err(e),
            Ok(items) => Ok(
                types::PageModel {
                    total: le::le(body, 0, 8) as u64,
                    items,
                    more: has_flag(body[16], 1),
                    volumes_incomplete: has_flag(body[16], 2),
                    metadata_pending: has_flag(body[16], 4),
                    generation: le::le(body, 8, 8) as u64,
                },
            ),
        }
    }
}

fn take(body: &[u8], pos: usize, n: usize) -> (r: Result<usize, BinError>)
    requires
        pos <= body@.len(),
    ensures
        match taken(body@, pos as int, n as int) {
            Ok(end) => r is Ok && r->Ok_0 == end,
            Err(e) => r is Err && r->Err_0.what() == e,
        },
{
    match pos.checked_add(n) {
        None => Err(BinError("overflow")),
        Some(end) => if end > body.len() {
            Err(BinError("truncated"))
        } else {
            Ok(end)
        },
    }
}

fn read_item(body: &[u8], pos: usize) -> (r: Result<(ResultItem, usize), BinError>)
    requires
        pos <= body@.len(),
    ensures
        match item_at(body@, pos as int) {
            Ok(m) => r is Ok && r->Ok_0.0.model() == m.item && r->Ok_0.1 == m.end && m.end
                <= body@.len(),
            Err(e) => r is Err && r->Err_0.what() == e,
        },
{
    assert(body.len() == body@.len());
    let start = match take(body, pos, 4) {
        Ok(p) => p,
        Err(e) => {
            return Err(e);
        },
    };
    let end = match take(body, start, le::u32_at(body, pos) as usize) {
        Ok(p) => p,
        Err(e) => {
            return Err(e);
        },
    };
    if end >= body.len() {
        return Err(BinError("truncated"));
    }
    let raw = vstd::slice::slice_subrange(body, start, end);
    let iflags = body[end];
    let mut p = end + 1;
    let mut size: Option<u64> = None;
    if iflags & 2 != 0 {
        let at = p;
        p = match take(body, at, 8) {
            Ok(q) => q,
            Err(e) => {
                return Err(e);
            },
        };
        size = Some(le::u64_at(body, at));
    }
    let mut mtime_ft: Option<i64> = None;
    if iflags & 4 != 0 {
        let at = p;
        p = match take(body, at, 8) {
            Ok(q) => q,
            Err(e) => {
                return Err(e);
            },
        };
        mtime_ft = Some(le::i64_at(body, at));
    }
    let path_u16 = match text::utf8_text(raw) {
        Some(_) => None,
        None => Some(wtf8::to_utf16(raw)),
    };
    let item = ResultItem {
        path: wtf8::to_string_lossy(raw),
        path_u16,
        size,
        mtime_ft,
        is_dir: iflags & 1 != 0,
    };
    Ok((item, p))
}

/// `rest` behind what was read before it.
spec fn behind(
    before: Seq<types::ItemModel>,
    rest: Result<Seq<types::ItemModel>, Seq<char>>,
) -> Result<Seq<types::ItemModel>, Seq<char>> {
    match rest {
        Ok(s) => Ok(before + s),
        Err(e) => Err(e),
    }
}

fn read_items(body: &[u8], first: usize, count: u32) -> (r: Result<Vec<ResultItem>, BinError>)
    requires
        first <= body@.len(),
    ensures
        match items_at(body@, first as int, count as nat) {
            Ok(m) => r is Ok && types::item_models(r->Ok_0@) == m,
            Err(e) => r is Err && r->Err_0.what() == e,
        },
{
    let mut items: Vec<ResultItem> = Vec::new();
    let mut pos = first;
    let mut left = count;
    let ghost want = items_at(body@, first as int, count as nat);
    proof {
        match want {
            Ok(s) => assert(types::item_models(items@) + s =~= s),
            Err(_) => {},
        }
    }
    while left > 0
        invariant
            pos <= body@.len(),
            want == items_at(body@, first as int, count as nat),
            want == behind(
                types::item_models(items@),
                items_at(body@, pos as int, left as nat),
            ),
        decreases left,
    {
        let ghost before = types::item_models(items@);
        match read_item(body, pos) {
            Err(e) => {
                return Err(e);
            },
            Ok((item, end)) => {
                proof {
                    assert(types::item_models(items@.push(item)) =~= before + seq![item.model()]);
                    match items_at(body@, end as int, (left - 1) as nat) {
                        Ok(s) => assert(before + (seq![item.model()] + s) =~= before
                            + seq![item.model()] + s),
                        Err(_) => {},
                    }
                }
                items.push(item);
                pos = end;
                left = left - 1;
            },
        }
    }
    assert(types::item_models(items@) + Seq::<types::ItemModel>::empty() =~= types::item_models(
        items@,
    ));
    Ok(items)
}

/// Reads a page from the bytes behind its tag.
pub fn decode_results_payload(body: &[u8]) -> (r: Result<QueryResults, BinError>)
    ensures
        match page_in(body@) {
            Ok(m) => r is Ok && r->Ok_0.model() == m,
            Err(e) => r is Err && r->Err_0.what() == e,
        },
{
    if body.len() < 21 {
        return Err(BinError("truncated"));
    }
    let flags = body[16];
    match read_items(body, 21, le::u32_at(body, 17)) {
        Err(e) => Err(e),
        Ok(items) => Ok(
            QueryResults {
                total: le::u64_at(body, 0),
                items,
                more: flags & 1 != 0,
                volumes_incomplete: flags & 2 != 0,
                metadata_pending: flags & 4 != 0,
                generation: le::u64_at(body, 8),
            },
        ),
    }
}

/// An item as the daemon makes it: exact code units exactly where the path is
/// not valid Unicode, and the text shown for them.
pub open spec fn sound_item(item: types::ItemModel) -> bool {
    &&& raw_path(item).len() <= u32::MAX
    &&& match item.path_u16 {
        Some(units) => wtf8::has_lone(units) && item.path == wtf8::shown_text(
            wtf8::wtf8_of_units(units),
        ),
        None => true,
    }
}

proof fn lemma_flags(a: bool, b: bool, c: bool)
    ensures
        has_flag(flag_byte(a, b, c), 1) == a,
        has_flag(flag_byte(a, b, c), 2) == b,
        has_flag(flag_byte(a, b, c), 4) == c,
{
    assert(0u8 & 1 == 0 && 1u8 & 1 != 0 && 2u8 & 1 == 0 && 3u8 & 1 != 0 && 4u8 & 1 == 0 && 5u8 & 1
        != 0 && 6u8 & 1 == 0 && 7u8 & 1 != 0) by (bit_vector);
    assert(0u8 & 2 == 0 && 1u8 & 2 == 0 && 2u8 & 2 != 0 && 3u8 & 2 != 0 && 4u8 & 2 == 0 && 5u8 & 2
        == 0 && 6u8 & 2 != 0 && 7u8 & 2 != 0) by (bit_vector);
    assert(0u8 & 4 == 0 && 1u8 & 4 == 0 && 2u8 & 4 == 0 && 3u8 & 4 == 0 && 4u8 & 4 != 0 && 5u8 & 4
        != 0 && 6u8 & 4 != 0 && 7u8 & 4 != 0) by (bit_vector);
}

/// A sound item's path is read back from its raw path.
proof fn lemma_path_back(item: types::ItemModel)
    requires
        sound_item(item),
    ensures
        wtf8::shown_text(raw_path(item)) == item.path,
        item.path_u16 is None <==> valid_utf8(raw_path(item)),
        item.path_u16 matches Some(u) ==> wtf8::cps_units(wtf8::decode(raw_path(item))) == u,
{
    match item.path_u16 {
        Some(units) => {
            text::law_lone_surrogate_iff_not_utf8(units);
            wtf8::law_utf16_round_trip(units);
        },
        None => {
            text::law_valid_text_is_shown_unchanged(item.path);
            encode_utf8_valid_utf8(item.path);
        },
    }
}

/// An item written at `pos` is read back from there.
proof fn lemma_item_back(body: Seq<u8>, pos: int, item: types::ItemModel)
    requires
        sound_item(item),
        body.len() <= usize::MAX,
        0 <= pos,
        ({
            let b = item_bytes(raw_path(item), item.is_dir, item.size, item.mtime_ft);
            pos + b.len() <= body.len() && body.subrange(pos, pos + b.len()) == b
        }),
    ensures
        item_at(body, pos) == Ok::<ItemRead, Seq<char>>(
            ItemRead {
                item,
                end: pos + item_bytes(raw_path(item), item.is_dir, item.size, item.mtime_ft).len(),
            },
        ),
{
    let path = raw_path(item);
    let b = item_bytes(path, item.is_dir, item.size, item.mtime_ft);
    let n = path.len() as int;
    le::lemma_le_bytes_len(path.len(), 4);
    le::lemma_fits(path.len());
    lemma_path_back(item);
    lemma_flags(item.is_dir, item.size is Some, item.mtime_ft is Some);
    assert(body.subrange(pos, pos + 4) =~= b.subrange(0, 4));
    assert(b.subrange(0, 4) =~= le::le_bytes(path.len(), 4));
    le::lemma_le_at(body, pos, path.len(), 4);
    let start = pos + 4;
    let end = start + n;
    assert(body.subrange(start, end) =~= b.subrange(4, 4 + n));
    assert(b.subrange(4, 4 + n) =~= path);
    assert(body[end] == b[4 + n]);
    let p = if item.size is Some {
        end + 9
    } else {
        end + 1
    };
    if let Some(s) = item.size {
        le::lemma_le_bytes_len(s as nat, 8);
        le::lemma_fits(s as nat);
        assert(body.subrange(end + 1, end + 9) =~= b.subrange(5 + n, 13 + n));
        assert(b.subrange(5 + n, 13 + n) =~= le::le_bytes(s as nat, 8));
        le::lemma_le_at(body, end + 1, s as nat, 8);
    }
    if let Some(m) = item.mtime_ft {
        let v = le::unsigned(m as int);
        le::lemma_le_bytes_len(v, 8);
        le::lemma_fits(v);
        assert(body.subrange(p, p + 8) =~= b.subrange(p - pos, p - pos + 8));
        assert(b.subrange(p - pos, p - pos + 8) =~= le::le_bytes(v, 8));
        le::lemma_le_at(body, p, v, 8);
    }
    assert(item_at(body, pos)->Ok_0.item =~= item);
}

proof fn lemma_items_back(body: Seq<u8>, pos: int, items: Seq<types::ItemModel>)
    requires
        forall|k: int| 0 <= k < items.len() ==> sound_item(#[trigger] items[k]),
        body.len() <= usize::MAX,
        0 <= pos,
        pos + items_bytes(items).len() <= body.len(),
        body.subrange(pos, pos + items_bytes(items).len()) == items_bytes(items),
    ensures
        items_at(body, pos, items.len()) == Ok::<Seq<types::ItemModel>, Seq<char>>(items),
    decreases items.len(),
{
    if items.len() == 0 {
        assert(items =~= Seq::<types::ItemModel>::empty());
    } else {
        let i = items[0];
        let rest = items.drop_first();
        let b = item_bytes(raw_path(i), i.is_dir, i.size, i.mtime_ft);
        let all = items_bytes(items);
        assert(sound_item(items[0]));
        assert(body.subrange(pos, pos + b.len()) =~= all.subrange(0, b.len() as int));
        assert(all.subrange(0, b.len() as int) =~= b);
        lemma_item_back(body, pos, i);
        let next = pos + b.len();
        assert(body.subrange(next, next + items_bytes(rest).len()) =~= all.subrange(
            b.len() as int,
            all.len() as int,
        ));
        assert(all.subrange(b.len() as int, all.len() as int) =~= items_bytes(rest));
        assert forall|k: int| 0 <= k < rest.len() implies sound_item(#[trigger] rest[k]) by {
            assert(rest[k] == items[k + 1]);
        }
        lemma_items_back(body, next, rest);
        assert(seq![i] + rest =~= items);
    }
}

/// A page that is written and read back is the same page, exact code units of
/// paths that are not valid Unicode included.
pub proof fn law_page_round_trip(page: types::PageModel)
    requires
        page.items.len() <= u32::MAX,
        forall|k: int| 0 <= k < page.items.len() ==> sound_item(#[trigger] page.items[k]),
        page_bytes(page).len() <= usize::MAX,
    ensures
        page_bytes(page)[0] == RESP_TAG_RESULTS,
        page_in(page_bytes(page).drop_first()) == Ok::<types::PageModel, Seq<char>>(page),
{
    let all = page_bytes(page);
    let body = all.drop_first();
    let count = page.items.len();
    let total = page.total as nat;
    let gen = page.generation as nat;
    le::lemma_le_bytes_len(total, 8);
    le::lemma_le_bytes_len(gen, 8);
    le::lemma_le_bytes_len(count, 4);
    le::lemma_fits(total);
    le::lemma_fits(gen);
    le::lemma_fits(count);
    lemma_flags(page.more, page.volumes_incomplete, page.metadata_pending);
    assert(body.subrange(0, 8) =~= le::le_bytes(total, 8));
    le::lemma_le_at(body, 0, total, 8);
    assert(body.subrange(8, 16) =~= le::le_bytes(gen, 8));
    le::lemma_le_at(body, 8, gen, 8);
    assert(body[16] == flag_byte(page.more, page.volumes_incomplete, page.metadata_pending));
    assert(body.subrange(17, 21) =~= le::le_bytes(count, 4));
    le::lemma_le_at(body, 17, count, 4);
    assert(body.subrange(21, 21 + items_bytes(page.items).len() as int) =~= items_bytes(page.items));
    lemma_items_back(body, 21, page.items);
}

proof fn lemma_le_in_prefix(short: Seq<u8>, body: Seq<u8>, at: int, n: nat)
    requires
        short.is_prefix_of(body),
        0 <= at,
        at + n <= short.len(),
    ensures
        le::le(short, at, n) == le::le(body, at, n),
{
    assert(short.subrange(at, at + n) =~= body.subrange(at, at + n));
    le::lemma_le_same(short, at, body, at, n);
}

/// An item read from a prefix is read the same from the whole, and ends in the
/// prefix.
proof fn lemma_item_in_prefix(short: Seq<u8>, body: Seq<u8>, pos: int)
    requires
        short.is_prefix_of(body),
        0 <= pos,
        item_at(short, pos) is Ok,
    ensures
        item_at(body, pos) == item_at(short, pos),
        item_at(short, pos)->Ok_0.end <= short.len(),
{
    lemma_le_in_prefix(short, body, pos, 4);
    let start = pos + 4;
    let end = start + le::le(short, pos, 4);
    assert(short.subrange(start, end) =~= body.subrange(start, end));
    assert(short[end] == body[end]);
    let flags = short[end];
    let p = if has_flag(flags, 2) {
        end + 9
    } else {
        end + 1
    };
    if has_flag(flags, 2) {
        lemma_le_in_prefix(short, body, end + 1, 8);
    }
    if has_flag(flags, 4) {
        lemma_le_in_prefix(short, body, p, 8);
    }
}

/// Items that do not all lie in a prefix are not read from it.
proof fn lemma_items_cut(short: Seq<u8>, body: Seq<u8>, pos: int, items: Seq<types::ItemModel>)
    requires
        forall|k: int| 0 <= k < items.len() ==> sound_item(#[trigger] items[k]),
        body.len() <= usize::MAX,
        short.is_prefix_of(body),
        0 <= pos <= short.len(),
        short.len() < pos + items_bytes(items).len() <= body.len(),
        body.subrange(pos, pos + items_bytes(items).len()) == items_bytes(items),
    ensures
        items_at(short, pos, items.len()) is Err,
    decreases items.len(),
{
    if items.len() > 0 && item_at(short, pos) is Ok {
        let i = items[0];
        let rest = items.drop_first();
        let b = item_bytes(raw_path(i), i.is_dir, i.size, i.mtime_ft);
        let all = items_bytes(items);
        assert(sound_item(items[0]));
        assert(body.subrange(pos, pos + b.len()) =~= all.subrange(0, b.len() as int));
        assert(all.subrange(0, b.len() as int) =~= b);
        lemma_item_back(body, pos, i);
        lemma_item_in_prefix(short, body, pos);
        let next = pos + b.len();
        assert(body.subrange(next, next + items_bytes(rest).len()) =~= all.subrange(
            b.len() as int,
            all.len() as int,
        ));
        assert(all.subrange(b.len() as int, all.len() as int) =~= items_bytes(rest));
        assert forall|k: int| 0 <= k < rest.len() implies sound_item(#[trigger] rest[k]) by {
            assert(rest[k] == items[k + 1]);
        }
        lemma_items_cut(short, body, next, rest);
    }
}

/// A page that is cut short anywhere is an error, never a page with less in it.
pub proof fn law_cut_page_is_an_error(page: types::PageModel, n: int)
    requires
        page.items.len() <= u32::MAX,
        forall|k: int| 0 <= k < page.items.len() ==> sound_item(#[trigger] page.items[k]),
        page_bytes(page).len() <= usize::MAX,
        0 <= n < page_bytes(page).len() - 1,
    ensures
        page_in(page_bytes(page).drop_first().take(n)) is Err,
{
    let body = page_bytes(page).drop_first();
    let short = body.take(n);
    let count = page.items.len();
    le::lemma_le_bytes_len(page.total as nat, 8);
    le::lemma_le_bytes_len(page.generation as nat, 8);
    le::lemma_le_bytes_len(count, 4);
    le::lemma_fits(count);
    assert(body.subrange(17, 21) =~= le::le_bytes(count, 4));
    le::lemma_le_at(body, 17, count, 4);
    if n >= 21 {
        lemma_le_in_prefix(short, body, 17, 4);
        assert(body.subrange(21, 21 + items_bytes(page.items).len() as int) =~= items_bytes(
            page.items,
        ));
        lemma_items_cut(short, body, 21, page.items);
    }
}

} // verus!
