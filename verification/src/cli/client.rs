//! One exchange with the server.

use crate::proto::binary;
use crate::proto::frame;
use crate::proto::frame::{FrameDecoder, RespFrame};
use crate::proto::types;
use crate::proto::wire;
use crate::proto::types::{QueryResults, MAX_SERVER_FRAME, PIPE_NAME};
use crate::text;
use vstd::prelude::*;
use vstd::string::StringExecFns;

verus! {

/// The pipe is opened at the anonymous impersonation level: a server that took
/// the name cannot act as the client.
pub const SECURITY_SQOS_PRESENT: u32 = 0x0010_0000;

/// How long a reply is waited for, in milliseconds.
pub const READ_DEADLINE_MS: u64 = 30_000;

/// How long to pause before looking for bytes again, in milliseconds.
pub const POLL_INTERVAL_MS: u64 = 5;

/// How long to pause before opening a busy pipe again, in milliseconds.
pub const BUSY_BACKOFF_MS: u64 = 25;

/// How often a busy pipe is opened again.
pub const BUSY_ATTEMPTS: u32 = 20;

/// Bytes that are read at once.
pub const READ_BUFFER_BYTES: usize = 262_144;

pub const ERROR_FILE_NOT_FOUND: i32 = 2;

pub const ERROR_PATH_NOT_FOUND: i32 = 3;

pub const ERROR_PIPE_BUSY: i32 = 231;

/// Why an exchange came to nothing.
#[derive(Clone, Debug, PartialEq, Eq)]
pub enum ClientError {
    /// There is no pipe: the server is not running.
    Unreachable,
    /// There is a server, but it is not the trusted one.
    Untrusted,
    /// A reply is malformed or did not come in time.
    Protocol(String),
}

/// What to do when the pipe could not be opened.
#[derive(Clone, Copy, Debug, PartialEq, Eq, Structural)]
pub enum OpenStep {
    /// Give up: the server is not running.
    Unreachable,
    /// Pause and open it again.
    Retry,
    /// Give up with the error of the system.
    Fail,
}

/// What to do when the pipe could not be opened, `attempts` retries having
/// been made. A busy pipe shows that the server is running.
pub fn after_open_error(os_error: Option<i32>, attempts: u32) -> (step: OpenStep)
    ensures
        step == match os_error {
            Some(code) => if code == ERROR_FILE_NOT_FOUND || code == ERROR_PATH_NOT_FOUND {
                OpenStep::Unreachable
            } else if code == ERROR_PIPE_BUSY && attempts < BUSY_ATTEMPTS {
                OpenStep::Retry
            } else {
                OpenStep::Fail
            },
            None => OpenStep::Fail,
        },
{
    match os_error {
        Some(code) => {
            if code == ERROR_FILE_NOT_FOUND || code == ERROR_PATH_NOT_FOUND {
                OpenStep::Unreachable
            } else if code == ERROR_PIPE_BUSY && attempts < BUSY_ATTEMPTS {
                OpenStep::Retry
            } else {
                OpenStep::Fail
            }
        },
        None => OpenStep::Fail,
    }
}

/// The error for a pipe that is there and cannot be opened.
pub fn open_failure(cause: &str) -> (e: ClientError)
    ensures
        e matches ClientError::Protocol(m) && m@ == "cannot open "@ + PIPE_NAME@ + ": "@ + cause@,
{
    let mut m = String::from_str("cannot open ");
    m.append(PIPE_NAME);
    m.append(": ");
    m.append(cause);
    ClientError::Protocol(m)
}

/// Whether a request may be sent. `checked` says whether the owner of the pipe
/// is the trusted server, and is `None` where that could not be found out:
/// unless the check is waived, nothing is sent to a server that is not known
/// to be the trusted one.
pub fn may_send(insecure: bool, checked: Option<bool>) -> (r: Result<(), ClientError>)
    ensures
        r is Ok <==> insecure || checked == Some(true),
        r matches Err(e) ==> e is Untrusted,
{
    if insecure {
        return Ok(());
    }
    match checked {
        Some(true) => Ok(()),
        _ => Err(ClientError::Untrusted),
    }
}

/// What to do when there is no complete frame.
#[derive(Clone, Copy, Debug, PartialEq, Eq, Structural)]
pub enum ReadStep {
    /// Give up: the server did not reply in time.
    Late,
    /// Give up: the connection is closed.
    Closed,
    /// Pause and look again.
    Wait,
    /// Read what is there.
    Read,
}

/// What to do when there is no complete frame: `late` says whether the
/// deadline has passed, `available` how many bytes wait to be read, if that is
/// known. Only bytes that are there are read, so a server that never replies
/// cannot hold the client past the deadline.
pub fn before_read(late: bool, available: Option<u32>) -> (step: ReadStep)
    ensures
        step == if late {
            ReadStep::Late
        } else {
            match available {
                None => ReadStep::Closed,
                Some(n) => if n == 0 {
                    ReadStep::Wait
                } else {
                    ReadStep::Read
                },
            }
        },
{
    if late {
        return ReadStep::Late;
    }
    match available {
        None => ReadStep::Closed,
        Some(n) => {
            if n == 0 {
                ReadStep::Wait
            } else {
                ReadStep::Read
            }
        },
    }
}

/// The error with which waiting for a reply ends.
pub fn read_failure(step: ReadStep) -> (e: Option<ClientError>)
    ensures
        e is Some <==> step is Late || step is Closed,
        e matches Some(e) ==> e is Protocol && e->Protocol_0@ == if step is Late {
            "daemon did not reply in time"@
        } else {
            "daemon closed the connection"@
        },
{
    match step {
        ReadStep::Late => Some(
            ClientError::Protocol(String::from_str("daemon did not reply in time")),
        ),
        ReadStep::Closed => Some(
            ClientError::Protocol(String::from_str("daemon closed the connection")),
        ),
        _ => None,
    }
}

/// The results so far and one more page.
pub open spec fn joined(acc: Option<types::PageModel>, page: types::PageModel) -> types::PageModel {
    match acc {
        None => page,
        Some(a) => types::PageModel { items: a.items + page.items, ..a },
    }
}

/// The results after some pages.
pub open spec fn all_joined(pages: Seq<types::PageModel>) -> Option<types::PageModel>
    decreases pages.len(),
{
    if pages.len() == 0 {
        None
    } else {
        Some(joined(all_joined(pages.drop_last()), pages.last()))
    }
}

/// The items of some pages, one page after another.
pub open spec fn all_items(pages: Seq<types::PageModel>) -> Seq<types::ItemModel>
    decreases pages.len(),
{
    if pages.len() == 0 {
        seq![]
    } else {
        all_items(pages.drop_last()) + pages.last().items
    }
}

/// The pages of a reply come out as one page: it has the items of all of them
/// in order, and the rest of the first.
pub proof fn law_pages_make_one(pages: Seq<types::PageModel>)
    requires
        pages.len() > 0,
    ensures
        all_joined(pages) == Some(types::PageModel { items: all_items(pages), ..pages[0] }),
    decreases pages.len(),
{
    let front = pages.drop_last();
    if front.len() == 0 {
        assert(all_joined(front) is None);
        assert(all_items(front) =~= seq![]);
        assert(all_items(pages) =~= pages[0].items);
    } else {
        law_pages_make_one(front);
    }
}

/// What has come of a reply.
#[derive(Clone, Debug, PartialEq)]
pub enum Progress {
    /// More bytes are needed.
    NeedBytes,
    /// A JSON document, which is to be decoded.
    Document(Vec<u8>),
    /// The results, all pages put together.
    Results(QueryResults),
}

/// What comes of a reply.
#[verifier::ext_equal]
pub ghost enum Outcome {
    Wait,
    Document(Seq<u8>),
    Results(types::PageModel),
    /// The reply makes no sense; why.
    Failed(Seq<char>),
}

/// A reply after what was complete of it was read.
#[verifier::ext_equal]
pub ghost struct Advanced {
    pub outcome: Outcome,
    pub unread: Seq<u8>,
    pub so_far: Option<types::PageModel>,
    pub refused: Option<u32>,
}

/// What comes of the bytes of a reply and the results so far.
pub open spec fn advanced(unread: Seq<u8>, so_far: Option<types::PageModel>) -> Advanced
    decreases unread.len(),
{
    match frame::next_in(unread, MAX_SERVER_FRAME) {
        frame::Next::Wait => Advanced { outcome: Outcome::Wait, unread, so_far, refused: None },
        frame::Next::TooLarge(len) => Advanced {
            outcome: Outcome::Failed(too_large_text(len)),
            unread,
            so_far,
            refused: Some(len),
        },
        frame::Next::Frame(payload) => {
            let rest = unread.subrange(4 + payload.len() as int, unread.len() as int);
            match response_in(payload) {
                Err(text) => Advanced {
                    outcome: Outcome::Failed(text),
                    unread: rest,
                    so_far,
                    refused: None,
                },
                Ok(frame::RespModel::Json(b)) => Advanced {
                    outcome: Outcome::Document(b),
                    unread: rest,
                    so_far,
                    refused: None,
                },
                Ok(frame::RespModel::Results(page)) => if page.more {
                    advanced(rest, Some(joined(so_far, page)))
                } else {
                    Advanced {
                        outcome: Outcome::Results(
                            types::PageModel { more: false, ..joined(so_far, page) },
                        ),
                        unread: rest,
                        so_far: None,
                        refused: None,
                    }
                },
            }
        },
    }
}

/// The reply to one request, as it comes in.
pub struct Exchange {
    decoder: FrameDecoder,
    merged: Option<QueryResults>,
}

impl Exchange {
    /// The bytes that are not consumed yet.
    pub closed spec fn unread(&self) -> Seq<u8> {
        self.decoder.pending()
    }

    /// The length of the frame that was refused, if one was.
    pub closed spec fn refused(&self) -> Option<u32> {
        match self.decoder.refused() {
            Some((len, _)) => Some(len),
            None => None,
        }
    }

    /// The results so far.
    pub closed spec fn so_far(&self) -> Option<types::PageModel> {
        match self.merged {
            Some(p) => Some(p.model()),
            None => None,
        }
    }

    pub closed spec fn wf(&self) -> bool {
        &&& self.decoder.wf()
        &&& self.decoder.max() == MAX_SERVER_FRAME
        &&& self.decoder.refused() matches Some((_, max)) ==> max == MAX_SERVER_FRAME
    }

    /// Nothing has come in yet.
    pub fn new() -> (x: Exchange)
        ensures
            x.wf(),
            x.unread() == Seq::<u8>::empty(),
            x.refused() is None,
            x.so_far() is None,
    {
        Exchange { decoder: FrameDecoder::new(MAX_SERVER_FRAME), merged: None }
    }

    /// Takes in bytes that were read.
    pub fn feed(&mut self, bytes: &[u8])
        requires
            old(self).wf(),
        ensures
            final(self).wf(),
            final(self).unread() == old(self).unread() + bytes@,
            final(self).refused() == old(self).refused(),
            final(self).so_far() == old(self).so_far(),
    {
        self.decoder.feed(bytes);
    }

    /// Reads what is complete of the reply: pages of results are put together
    /// until the last of them, and a document is handed out for decoding.
    pub fn advance(&mut self) -> (r: Result<Progress, ClientError>)
        requires
            old(self).wf(),
        ensures
            final(self).wf(),
            r matches Err(e) ==> e is Protocol,
            old(self).refused() matches Some(len) ==> {
                &&& r matches Err(e) && e->Protocol_0@ == too_large_text(len)
                &&& final(self).refused() == old(self).refused()
                &&& final(self).unread() == old(self).unread()
                &&& final(self).so_far() == old(self).so_far()
            },
            old(self).refused() is None ==> {
                let want = advanced(old(self).unread(), old(self).so_far());
                &&& final(self).unread() == want.unread
                &&& final(self).so_far() == want.so_far
                &&& final(self).refused() == want.refused
                &&& match want.outcome {
                    Outcome::Wait => r == Ok::<Progress, ClientError>(Progress::NeedBytes),
                    Outcome::Document(b) => r matches Ok(Progress::Document(d)) && d@ == b,
                    Outcome::Results(p) => r matches Ok(Progress::Results(q)) && q.model() == p,
                    Outcome::Failed(text) => r matches Err(e) && e->Protocol_0@ == text,
                }
            },
    {
        let ghost start = self.unread();
        let ghost first = self.so_far();
        loop
            invariant
                self.wf(),
                start == old(self).unread(),
                first == old(self).so_far(),
                old(self).refused() == self.refused(),
                self.refused() is None ==> advanced(start, first) == advanced(
                    self.unread(),
                    self.so_far(),
                ),
                self.refused() is Some ==> self.unread() == start && self.so_far() == first,
            decreases self.unread().len(),
        {
            let ghost unread = self.unread();
            match self.decoder.next_frame() {
                Err(e) => {
                    return Err(ClientError::Protocol(e.message()));
                },
                Ok(None) => {
                    return Ok(Progress::NeedBytes);
                },
                Ok(Some(payload)) => {
                    assert(payload@.len() > 0 ==> payload@[0] == 0 || payload@[0] == 1
                        || payload@[0] > 1);
                    match frame::decode_response_frame(payload.as_slice()) {
                        Err(e) => {
                            return Err(ClientError::Protocol(e.message()));
                        },
                        Ok(RespFrame::Json(body)) => {
                            return Ok(Progress::Document(body));
                        },
                        Ok(RespFrame::Results(page)) => {
                            if let Some(done) = self.accept(page) {
                                return Ok(Progress::Results(done));
                            }
                            assert(self.unread().len() < unread.len());
                        },
                    }
                },
            }
        }
    }

    /// Takes in a page of results, and gives the results once they are
    /// complete: the items of all pages, and otherwise what the first page
    /// says.
    pub fn accept(&mut self, page: QueryResults) -> (r: Option<QueryResults>)
        requires
            old(self).wf(),
        ensures
            final(self).wf(),
            final(self).unread() == old(self).unread(),
            final(self).refused() == old(self).refused(),
            r is None <==> page.more,
            r is None ==> final(self).so_far() == Some(joined(old(self).so_far(), page.model())),
            r matches Some(done) ==> final(self).so_far() is None && done.model()
                == (types::PageModel {
                more: false,
                ..joined(old(self).so_far(), page.model())
            }),
    {
        let more = page.more;
        let ghost said = page.model();
        let ghost before = self.so_far();
        let mut all = match self.merged.take() {
            None => page,
            Some(mut acc) => {
                let mut items = page.items;
                let ghost first = acc.items@;
                let ghost second = items@;
                acc.items.append(&mut items);
                assert(types::item_models(acc.items@) =~= types::item_models(first)
                    + types::item_models(second));
                acc
            },
        };
        assert(all.model() == joined(before, said));
        if more {
            self.merged = Some(all);
            None
        } else {
            all.more = false;
            Some(all)
        }
    }
}

/// A page that can be sent: it fits in a frame, and its items can be written.
pub open spec fn sendable(page: types::PageModel) -> bool {
    &&& page.items.len() <= u32::MAX
    &&& forall|k: int|
        0 <= k < page.items.len() ==> binary::sound_item(#[trigger] page.items[k])
    &&& binary::page_bytes(page).len() <= MAX_SERVER_FRAME
}

/// The payloads of some pages.
pub open spec fn payloads(pages: Seq<types::PageModel>) -> Seq<Seq<u8>> {
    pages.map_values(|p: types::PageModel| binary::page_bytes(p))
}

proof fn lemma_pages_arrive(
    pages: Seq<types::PageModel>,
    so_far: Option<types::PageModel>,
    rest: Seq<u8>,
)
    requires
        pages.len() > 0,
        forall|k: int| 0 <= k < pages.len() ==> sendable(#[trigger] pages[k]),
        forall|k: int| 0 <= k < pages.len() ==> (#[trigger] pages[k]).more == (k < pages.len() - 1),
    ensures
        ({
            let first = joined(so_far, pages[0]);
            let all = types::PageModel {
                items: first.items + all_items(pages.drop_first()),
                more: false,
                ..first
            };
            advanced(frame::stream_bytes(payloads(pages)) + rest, so_far) == (Advanced {
                outcome: Outcome::Results(all),
                unread: rest,
                so_far: None,
                refused: None,
            })
        }),
    decreases pages.len(),
{
    let page = pages[0];
    let more = pages.drop_first();
    let payload = binary::page_bytes(page);
    let behind = frame::stream_bytes(payloads(more)) + rest;
    let bytes = frame::stream_bytes(payloads(pages)) + rest;
    let first = joined(so_far, page);
    assert(sendable(pages[0]));
    assert(pages[0].more == (0 < pages.len() - 1));
    assert(payloads(pages)[0] == payload);
    assert(payloads(pages).drop_first() =~= payloads(more));
    assert(bytes =~= frame::frame_bytes(payload) + behind);
    frame::lemma_frame_read(payload, behind, MAX_SERVER_FRAME);
    binary::law_page_round_trip(page);
    if more.len() == 0 {
        assert(payloads(more) =~= Seq::<Seq<u8>>::empty());
        assert(behind =~= rest);
        assert(first.items + all_items(more) =~= first.items);
    } else {
        assert forall|k: int| 0 <= k < more.len() implies sendable(#[trigger] more[k]) by {
            assert(more[k] == pages[k + 1]);
        }
        assert forall|k: int| 0 <= k < more.len() implies (#[trigger] more[k]).more == (k
            < more.len() - 1) by {
            assert(more[k] == pages[k + 1]);
        }
        lemma_pages_arrive(more, Some(first), rest);
        lemma_items_front(more);
        assert((first.items + more[0].items) + all_items(more.drop_first()) =~= first.items
            + all_items(more));
    }
}

proof fn lemma_items_front(pages: Seq<types::PageModel>)
    requires
        pages.len() > 0,
    ensures
        all_items(pages) == pages[0].items + all_items(pages.drop_first()),
    decreases pages.len(),
{
    let front = pages.drop_last();
    if front.len() == 0 {
        assert(all_items(front) =~= seq![]);
        assert(pages.drop_first() =~= Seq::<types::PageModel>::empty());
        assert(all_items(pages) =~= pages[0].items + all_items(pages.drop_first()));
    } else {
        lemma_items_front(front);
        assert(front.drop_first() =~= pages.drop_first().drop_last());
        assert(pages.drop_first().last() == pages.last());
        assert(all_items(pages) =~= pages[0].items + all_items(pages.drop_first()));
    }
}

/// What the server sends is what the client gets: however many pages results
/// are sent in, all of them but the last announcing another, they arrive as
/// one page with all items in order and what the first page says otherwise;
/// what was sent behind them is not touched.
pub proof fn law_results_arrive(pages: Seq<types::PageModel>, rest: Seq<u8>)
    requires
        pages.len() > 0,
        forall|k: int| 0 <= k < pages.len() ==> sendable(#[trigger] pages[k]),
        forall|k: int| 0 <= k < pages.len() ==> (#[trigger] pages[k]).more == (k < pages.len() - 1),
    ensures
        advanced(frame::stream_bytes(payloads(pages)) + rest, None) == (Advanced {
            outcome: Outcome::Results(
                types::PageModel { items: all_items(pages), more: false, ..pages[0] },
            ),
            unread: rest,
            so_far: None,
            refused: None,
        }),
{
    lemma_pages_arrive(pages, None, rest);
    lemma_items_front(pages);
}

/// A document that is sent arrives as it is.
pub proof fn law_document_arrives(
    doc: Seq<u8>,
    rest: Seq<u8>,
    so_far: Option<types::PageModel>,
)
    requires
        doc.len() < MAX_SERVER_FRAME,
    ensures
        advanced(
            frame::frame_bytes(frame::resp_bytes(frame::RespModel::Json(doc))) + rest,
            so_far,
        ) == (Advanced { outcome: Outcome::Document(doc), unread: rest, so_far, refused: None }),
{
    let payload = frame::resp_bytes(frame::RespModel::Json(doc));
    frame::lemma_frame_read(payload, rest, MAX_SERVER_FRAME);
    assert(payload.drop_first() =~= doc);
}

/// Whenever the bytes of a reply come in, the same comes of them: reading what
/// is complete and reading on when more is there is reading all at once.
pub proof fn law_reply_may_come_in_pieces(
    unread: Seq<u8>,
    more: Seq<u8>,
    so_far: Option<types::PageModel>,
)
    ensures
        ({
            let early = advanced(unread, so_far);
            let whole = advanced(unread + more, so_far);
            if early.outcome is Wait {
                whole == advanced(early.unread + more, early.so_far)
            } else {
                whole == (Advanced { unread: early.unread + more, ..early })
            }
        }),
    decreases unread.len(),
{
    frame::lemma_next_stable(unread, more, MAX_SERVER_FRAME);
    if let frame::Next::Frame(payload) = frame::next_in(unread, MAX_SERVER_FRAME) {
        let n = 4 + payload.len() as int;
        let rest = unread.subrange(n, unread.len() as int);
        assert((unread + more).subrange(n, (unread + more).len() as int) =~= rest + more);
        if let Ok(frame::RespModel::Results(page)) = response_in(payload) {
            if page.more {
                law_reply_may_come_in_pieces(rest, more, Some(joined(so_far, page)));
            }
        }
    }
}

/// What is said of a frame that is too large.
pub open spec fn too_large_text(len: u32) -> Seq<char> {
    "frame of "@ + text::decimal(len as nat) + " bytes exceeds cap "@ + text::decimal(
        MAX_SERVER_FRAME as nat,
    )
}

/// What a payload says, or what is wrong with it.
pub open spec fn response_in(payload: Seq<u8>) -> Result<frame::RespModel, Seq<char>> {
    if payload.len() == 0 {
        Err("empty response frame"@)
    } else if payload[0] == binary::RESP_TAG_JSON {
        Ok(frame::RespModel::Json(payload.drop_first()))
    } else if payload[0] == binary::RESP_TAG_RESULTS {
        match binary::page_in(payload.drop_first()) {
            Ok(p) => Ok(frame::RespModel::Results(p)),
            Err(what) => Err("malformed binary results page: "@ + what),
        }
    } else {
        Err("unknown response frame tag "@ + text::decimal(payload[0] as nat))
    }
}

/// A reply whose frame is announced with more bytes than are accepted is
/// refused, in words, as soon as the announcement is there.
pub proof fn law_too_large_replies_are_refused(
    unread: Seq<u8>,
    so_far: Option<types::PageModel>,
)
    requires
        unread.len() >= 4,
        unread[0] + 0x100 * unread[1] + 0x1_0000 * unread[2] + 0x100_0000 * unread[3]
            > 16_777_216,
    ensures
        ({
            let len = unread[0] + 0x100 * unread[1] + 0x1_0000 * unread[2] + 0x100_0000 * unread[3];
            let r = advanced(unread, so_far);
            &&& r.outcome == Outcome::Failed(
                "frame of "@ + text::decimal(len as nat) + " bytes exceeds cap "@ + text::decimal(
                    16_777_216,
                ),
            )
            &&& r.so_far == so_far
            &&& r.refused == Some(len as u32)
        }),
{
    wire::law_frames_are_taken_whole(unread, MAX_SERVER_FRAME);
}

/// Where not all of a frame is there, nothing is taken, and the results so far
/// are kept.
pub proof fn law_parts_of_frames_wait(unread: Seq<u8>, so_far: Option<types::PageModel>)
    requires
        unread.len() < 4 || unread.len() < 4 + unread[0] + 0x100 * unread[1] + 0x1_0000 * unread[2]
            + 0x100_0000 * unread[3] <= 16_777_220,
    ensures
        advanced(unread, so_far).outcome is Wait,
        advanced(unread, so_far).unread == unread,
        advanced(unread, so_far).so_far == so_far,
        advanced(unread, so_far).refused is None,
{
    wire::law_frames_are_taken_whole(unread, MAX_SERVER_FRAME);
}

} // verus!
