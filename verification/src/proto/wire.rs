//! What stands on the wire, byte by byte.

use crate::cli::client;
use crate::le;
use crate::proto::binary;
use crate::proto::frame;
use crate::proto::frame::{Next, RespModel};
use crate::proto::types;
use crate::text;
use vstd::prelude::*;

verus! {

/// Numbers are read least significant byte first, and the highest bit of a
/// signed one is its sign.
pub proof fn law_bytes_count_upwards(b: Seq<u8>, at: int)
    ensures
        le::le(b, at, 1) == b[at],
        le::le(b, at, 2) == b[at] + 0x100 * b[at + 1],
        le::le(b, at, 4) == b[at] + 0x100 * b[at + 1] + 0x1_0000 * b[at + 2] + 0x100_0000 * b[at
            + 3],
        le::le(b, at, 8) == le::le(b, at, 4) + 0x1_0000_0000 * le::le(b, at + 4, 4),
        le::signed(le::le(b, at, 8)) == le::le(b, at, 8) - (if b[at + 7] >= 0x80 {
            0x1_0000_0000_0000_0000int
        } else {
            0
        }),
{
    reveal_with_fuel(le::le, 9);
}

/// Numbers are written as they are read.
pub proof fn law_written_numbers_are_read(v: nat, n: nat)
    requires
        n == 2 && v < 0x1_0000 || n == 4 && v < 0x1_0000_0000 || n == 8 && v
            < 0x1_0000_0000_0000_0000,
    ensures
        le::le_bytes(v, n).len() == n,
        le::le(le::le_bytes(v, n), 0, n) == v,
{
    le::lemma_fits(v);
    le::lemma_le_bytes_len(v, n);
    le::lemma_le_inverts(v, n);
}

/// A frame is the number of its bytes, in four bytes, and the bytes.
pub proof fn law_frames_tell_their_length(payload: Seq<u8>)
    requires
        payload.len() <= u32::MAX,
    ensures
        frame::frame_bytes(payload).len() == 4 + payload.len(),
        le::le(frame::frame_bytes(payload), 0, 4) == payload.len(),
        frame::frame_bytes(payload).subrange(4, frame::frame_bytes(payload).len() as int)
            == payload,
{
    let f = frame::frame_bytes(payload);
    law_written_numbers_are_read(payload.len(), 4);
    assert(f.subrange(4, f.len() as int) =~= payload);
    assert(f.subrange(0, 4) =~= le::le_bytes(payload.len(), 4).subrange(0, 4));
    le::lemma_le_same(f, 0, le::le_bytes(payload.len(), 4), 0, 4);
}

/// A frame is taken once all of it is there, and refused as soon as its length
/// is known to be more than is accepted.
pub proof fn law_frames_are_taken_whole(pending: Seq<u8>, max: u32)
    ensures
        pending.len() < 4 ==> frame::next_in(pending, max) is Wait,
        pending.len() >= 4 ==> {
            let len = pending[0] + 0x100 * pending[1] + 0x1_0000 * pending[2] + 0x100_0000
                * pending[3];
            &&& len > max ==> frame::next_in(pending, max) == Next::TooLarge(len as u32)
            &&& len <= max && pending.len() < 4 + len ==> frame::next_in(pending, max) is Wait
            &&& len <= max && pending.len() >= 4 + len ==> frame::next_in(pending, max)
                == Next::Frame(pending.subrange(4, 4 + len))
        },
{
    law_bytes_count_upwards(pending, 0);
}

/// A page is the byte 1, the total and the generation in eight bytes each, a
/// byte of flags, and the number of items in four bytes; then come the items.
pub proof fn law_pages_begin(page: types::PageModel)
    requires
        page.items.len() <= u32::MAX,
    ensures
        ({
            let b = binary::page_bytes(page);
            &&& b.len() == 22 + binary::items_bytes(page.items).len()
            &&& b[0] == 1
            &&& le::le(b, 1, 8) == page.total
            &&& le::le(b, 9, 8) == page.generation
            &&& b[17] == (if page.more {
                1int
            } else {
                0
            }) + (if page.volumes_incomplete {
                2int
            } else {
                0
            }) + (if page.metadata_pending {
                4int
            } else {
                0
            })
            &&& le::le(b, 18, 4) == page.items.len()
            &&& b.subrange(22, b.len() as int) == binary::items_bytes(page.items)
        }),
{
    let b = binary::page_bytes(page);
    let n = page.items.len();
    law_written_numbers_are_read(page.total as nat, 8);
    law_written_numbers_are_read(page.generation as nat, 8);
    law_written_numbers_are_read(n, 4);
    assert(b.subrange(1, 9) =~= le::le_bytes(page.total as nat, 8).subrange(0, 8));
    le::lemma_le_same(b, 1, le::le_bytes(page.total as nat, 8), 0, 8);
    assert(b.subrange(9, 17) =~= le::le_bytes(page.generation as nat, 8).subrange(0, 8));
    le::lemma_le_same(b, 9, le::le_bytes(page.generation as nat, 8), 0, 8);
    assert(b.subrange(18, 22) =~= le::le_bytes(n, 4).subrange(0, 4));
    le::lemma_le_same(b, 18, le::le_bytes(n, 4), 0, 4);
    assert(b.subrange(22, b.len() as int) =~= binary::items_bytes(page.items));
}

/// An item is the length of its path in four bytes, the path, a byte of flags,
/// and its size and its time in eight bytes each where they are known. Items
/// follow one another.
pub proof fn law_items_are_laid_out(
    path: Seq<u8>,
    is_dir: bool,
    size: Option<u64>,
    mtime: Option<i64>,
    items: Seq<types::ItemModel>,
)
    requires
        path.len() <= u32::MAX,
    ensures
        ({
            let b = binary::item_bytes(path, is_dir, size, mtime);
            let p = 5 + path.len() as int;
            let q = p + (if size is Some {
                8int
            } else {
                0
            });
            &&& b.len() == q + (if mtime is Some {
                8int
            } else {
                0
            })
            &&& le::le(b, 0, 4) == path.len()
            &&& b.subrange(4, p - 1) == path
            &&& b[p - 1] == (if is_dir {
                1int
            } else {
                0
            }) + (if size is Some {
                2int
            } else {
                0
            }) + (if mtime is Some {
                4int
            } else {
                0
            })
            &&& size matches Some(s) ==> le::le(b, p, 8) == s
            &&& mtime matches Some(m) ==> le::signed(le::le(b, q, 8)) == m
        }),
        items.len() > 0 ==> binary::items_bytes(items) == binary::item_bytes(
            binary::raw_path(items[0]),
            items[0].is_dir,
            items[0].size,
            items[0].mtime_ft,
        ) + binary::items_bytes(items.drop_first()),
        binary::items_bytes(Seq::empty()).len() == 0,
{
    let b = binary::item_bytes(path, is_dir, size, mtime);
    let n = path.len();
    law_written_numbers_are_read(n, 4);
    assert(b.subrange(0, 4) =~= le::le_bytes(n, 4).subrange(0, 4));
    le::lemma_le_same(b, 0, le::le_bytes(n, 4), 0, 4);
    assert(b.subrange(4, 4 + n as int) =~= path);
    if let Some(s) = size {
        law_written_numbers_are_read(s as nat, 8);
        assert(b.subrange(5 + n as int, 5 + n as int + 8) =~= le::le_bytes(s as nat, 8).subrange(0, 8));
        le::lemma_le_same(b, 5 + n as int, le::le_bytes(s as nat, 8), 0, 8);
    }
    if let Some(m) = mtime {
        let u = le::unsigned(m as int);
        law_written_numbers_are_read(u, 8);
        let q = 5 + n as int + (if size is Some {
            8int
        } else {
            0
        });
        if let Some(s) = size {
            le::lemma_le_bytes_len(s as nat, 8);
        }
        assert(b.subrange(q, q + 8) =~= le::le_bytes(u, 8).subrange(0, 8));
        le::lemma_le_same(b, q, le::le_bytes(u, 8), 0, 8);
    }
}

/// The path of an item is its exact form where it has one, else its text.
pub proof fn law_exact_paths_are_sent(item: types::ItemModel)
    ensures
        item.path_u16 matches Some(u) ==> binary::raw_path(item) == crate::wtf8::wtf8_of_units(u),
        item.path_u16 is None ==> binary::raw_path(item) == vstd::utf8::encode_utf8(item.path),
{
}

/// A payload is a document behind the byte 0 or a page behind the byte 1;
/// anything else is told apart and refused.
pub proof fn law_payloads_are_tagged(payload: Seq<u8>, document: Seq<u8>)
    ensures
        frame::resp_bytes(RespModel::Json(document)) == seq![0u8] + document,
        client::response_in(seq![0u8] + document) == Ok::<RespModel, Seq<char>>(
            RespModel::Json(document),
        ),
        payload.len() == 0 ==> client::response_in(payload) == Err::<RespModel, Seq<char>>(
            "empty response frame"@,
        ),
        payload.len() > 0 && payload[0] == 1 ==> client::response_in(payload) == (
        match binary::page_in(payload.drop_first()) {
            Ok(p) => Ok::<RespModel, Seq<char>>(RespModel::Results(p)),
            Err(what) => Err("malformed binary results page: "@ + what),
        }),
        payload.len() > 0 && payload[0] > 1 ==> client::response_in(payload) == Err::<
            RespModel,
            Seq<char>,
        >("unknown response frame tag "@ + text::decimal(payload[0] as nat)),
{
    assert((seq![0u8] + document).drop_first() =~= document);
}

/// The parts of a result that is sent are its fields, and those of a page are
/// its fields and its results.
pub proof fn law_results_are_modelled_whole(page: types::QueryResults, k: int)
    requires
        0 <= k < page.items@.len(),
    ensures
        page.model().total == page.total,
        page.model().generation == page.generation,
        page.model().more == page.more,
        page.model().volumes_incomplete == page.volumes_incomplete,
        page.model().metadata_pending == page.metadata_pending,
        page.model().items.len() == page.items@.len(),
        page.model().items[k].path == page.items@[k].path@,
        page.model().items[k].size == page.items@[k].size,
        page.model().items[k].mtime_ft == page.items@[k].mtime_ft,
        page.model().items[k].is_dir == page.items@[k].is_dir,
        page.model().items[k].path_u16 is Some <==> page.items@[k].path_u16 is Some,
        page.items@[k].path_u16 matches Some(u) ==> page.model().items[k].path_u16 == Some(u@),
{
}

} // verus!
