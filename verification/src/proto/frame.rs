//! Length-prefixed frames.
//!
//! A frame is the length of its payload (4 bytes, little-endian) and the
//! payload.

use crate::le;
use crate::proto::binary;
use crate::proto::binary::BinError;
use crate::proto::types;
use crate::proto::types::QueryResults;
use crate::text;
use vstd::prelude::*;
use vstd::string::StringExecFns;

verus! {

/// Once this many consumed bytes have gathered at the front of the buffer,
/// they are dropped.
pub const COMPACT_THRESHOLD: usize = 65536;

/// The bytes of a frame.
pub open spec fn frame_bytes(payload: Seq<u8>) -> Seq<u8> {
    le::le_bytes(payload.len(), 4) + payload
}

/// Appends one frame.
pub fn encode_frame(payload: &[u8], out: &mut Vec<u8>)
    requires
        payload@.len() <= u32::MAX,
    ensures
        final(out)@ == old(out)@ + frame_bytes(payload@),
{
    le::push_le(out, payload.len() as u64, 4);
    out.extend_from_slice(payload);
    assert(out@ =~= old(out)@ + frame_bytes(payload@));
}

/// A frame that cannot be accepted.
#[derive(Clone, Copy, Debug, PartialEq, Eq, Structural)]
pub enum FrameError {
    /// The announced length exceeds the receiver's cap.
    TooLarge { len: u32, max: u32 },
}

impl FrameError {
    /// The error in words.
    pub fn message(&self) -> (s: String)
        ensures
            s@ == "frame of "@ + text::decimal(self->len as nat) + " bytes exceeds cap "@
                + text::decimal(self->max as nat),
    {
        match self {
            FrameError::TooLarge { len, max } => {
                let mut s = String::from_str("frame of ");
                text::push_decimal(&mut s, *len as u64);
                s.append(" bytes exceeds cap ");
                text::push_decimal(&mut s, *max as u64);
                s
            },
        }
    }
}

/// An incremental decoder over an untrusted stream of bytes.
pub struct FrameDecoder {
    /// Buffered bytes, of which those from `read` on are not consumed.
    buf: Vec<u8>,
    read: usize,
    max_frame: u32,
    poisoned: Option<(u32, u32)>,
}

/// What there is to read next.
pub ghost enum Next {
    /// The bytes do not make a frame yet.
    Wait,
    /// A frame with this payload.
    Frame(Seq<u8>),
    /// A frame of this length, which is too large.
    TooLarge(u32),
}

/// What the bytes begin with, given the cap on frames. A frame that is too
/// large is known by its prefix alone.
pub open spec fn next_in(pending: Seq<u8>, max: u32) -> Next {
    let len = le::le(pending, 0, 4);
    if pending.len() < 4 {
        Next::Wait
    } else if len > max {
        Next::TooLarge(len as u32)
    } else if pending.len() < 4 + len {
        Next::Wait
    } else {
        Next::Frame(pending.subrange(4, 4 + len as int))
    }
}

impl FrameDecoder {
    /// The bytes that are not consumed yet.
    pub closed spec fn pending(&self) -> Seq<u8> {
        self.buf@.subrange(self.read as int, self.buf@.len() as int)
    }

    /// The largest payload that is accepted.
    pub closed spec fn max(&self) -> u32 {
        self.max_frame
    }

    /// The length and cap of the frame that was refused, if one was.
    pub closed spec fn refused(&self) -> Option<(u32, u32)> {
        self.poisoned
    }

    /// How many bytes are held beyond those that are pending.
    pub closed spec fn slack(&self) -> int {
        self.read as int
    }

    /// What is held beyond the pending bytes stays below the threshold.
    pub closed spec fn wf(&self) -> bool {
        self.read <= self.buf@.len() && self.read < COMPACT_THRESHOLD
    }

    /// A decoder that rejects frames with more than `max_frame` bytes.
    pub fn new(max_frame: u32) -> (d: FrameDecoder)
        ensures
            d.wf(),
            d.pending() == Seq::<u8>::empty(),
            d.max() == max_frame,
            d.refused() is None,
    {
        let d = FrameDecoder { buf: Vec::new(), read: 0, max_frame, poisoned: None };
        assert(d.pending() =~= Seq::<u8>::empty());
        d
    }

    /// Buffers newly received bytes.
    pub fn feed(&mut self, bytes: &[u8])
        requires
            old(self).wf(),
        ensures
            final(self).wf(),
            final(self).pending() == old(self).pending() + bytes@,
            final(self).max() == old(self).max(),
            final(self).refused() == old(self).refused(),
    {
        self.buf.extend_from_slice(bytes);
        assert(self.pending() =~= old(self).pending() + bytes@);
    }

    /// The next complete frame, or `None` if more bytes are needed. A frame
    /// that is too large is refused as soon as its prefix is there, and from
    /// then on every call fails in the same way.
    pub fn next_frame(&mut self) -> (r: Result<Option<Vec<u8>>, FrameError>)
        requires
            old(self).wf(),
        ensures
            final(self).wf(),
            final(self).slack() < COMPACT_THRESHOLD,
            final(self).max() == old(self).max(),
            old(self).refused() matches Some((len, max)) ==> {
                &&& r == Err::<Option<Vec<u8>>, FrameError>(FrameError::TooLarge { len, max })
                &&& final(self).refused() == old(self).refused()
                &&& final(self).pending() == old(self).pending()
            },
            old(self).refused() is None ==> match next_in(old(self).pending(), old(self).max()) {
                Next::Wait => r is Ok && r->Ok_0 is None && final(self).refused() is None
                    && final(self).pending() == old(self).pending(),
                Next::Frame(payload) => r is Ok && r->Ok_0 is Some && r->Ok_0->Some_0@ == payload
                    && final(self).refused() is None && final(self).pending()
                    == old(self).pending().subrange(
                    4 + payload.len() as int,
                    old(self).pending().len() as int,
                ),
                Next::TooLarge(len) => r == Err::<Option<Vec<u8>>, FrameError>(
                    FrameError::TooLarge { len, max: old(self).max() },
                ) && final(self).refused() == Some((len, old(self).max()))
                    && final(self).pending() == old(self).pending(),
            },
    {
        if let Some((len, max)) = self.poisoned {
            return Err(FrameError::TooLarge { len, max });
        }
        let ghost pending = self.pending();
        let avail = self.buf.len() - self.read;
        if avail < 4 {
            return Ok(None);
        }
        let len = le::u32_at(self.buf.as_slice(), self.read);
        proof {
            assert(pending.subrange(0, 4) =~= self.buf@.subrange(
                self.read as int,
                self.read as int + 4,
            ));
            le::lemma_le_same(pending, 0, self.buf@, self.read as int, 4);
        }
        if len > self.max_frame {
            self.poisoned = Some((len, self.max_frame));
            return Err(FrameError::TooLarge { len, max: self.max_frame });
        }
        if avail - 4 < len as usize {
            return Ok(None);
        }
        let start = self.read + 4;
        let end = start + len as usize;
        let payload = vstd::slice::slice_subrange(self.buf.as_slice(), start, end);
        let frame = vstd::slice::slice_to_vec(payload);
        assert(frame@ =~= pending.subrange(4, 4 + len as int));
        self.read = end;
        let ghost rest = pending.subrange(4 + len as int, pending.len() as int);
        assert(self.pending() =~= rest);
        if self.read == self.buf.len() {
            self.buf.clear();
            self.read = 0;
            assert(self.pending() =~= rest);
        } else if self.read >= COMPACT_THRESHOLD {
            let tail = self.buf.split_off(self.read);
            self.buf = tail;
            self.read = 0;
            assert(self.pending() =~= rest);
        }
        Ok(Some(frame))
    }
}

/// The frames that can be read from the bytes, one after another.
pub open spec fn frames_in(pending: Seq<u8>, max: u32) -> Seq<Seq<u8>>
    decreases pending.len(),
{
    match next_in(pending, max) {
        Next::Frame(payload) => seq![payload] + frames_in(
            pending.subrange(4 + payload.len() as int, pending.len() as int),
            max,
        ),
        _ => seq![],
    }
}

/// What is left of the bytes when all their frames are read.
pub open spec fn left_in(pending: Seq<u8>, max: u32) -> Seq<u8>
    decreases pending.len(),
{
    match next_in(pending, max) {
        Next::Frame(payload) => left_in(
            pending.subrange(4 + payload.len() as int, pending.len() as int),
            max,
        ),
        _ => pending,
    }
}

/// The bytes of some frames, one after another.
pub open spec fn stream_bytes(payloads: Seq<Seq<u8>>) -> Seq<u8>
    decreases payloads.len(),
{
    if payloads.len() == 0 {
        seq![]
    } else {
        frame_bytes(payloads[0]) + stream_bytes(payloads.drop_first())
    }
}

/// More bytes do not change a frame that is complete.
pub proof fn lemma_next_stable(pending: Seq<u8>, more: Seq<u8>, max: u32)
    ensures
        next_in(pending, max) is Frame ==> next_in(pending + more, max) == next_in(pending, max),
        next_in(pending, max) is TooLarge ==> next_in(pending + more, max) == next_in(pending, max),
{
    if pending.len() >= 4 {
        assert(pending.subrange(0, 4) =~= (pending + more).subrange(0, 4));
        le::lemma_le_same(pending, 0, pending + more, 0, 4);
        if let Next::Frame(payload) = next_in(pending, max) {
            let n = 4 + le::le(pending, 0, 4) as int;
            assert((pending + more).subrange(4, n) =~= pending.subrange(4, n));
        }
    }
}

/// However a stream is cut into pieces, the same frames come out: reading what
/// is complete, then receiving more, gives the frames of the whole.
pub proof fn law_chunks_do_not_matter(pending: Seq<u8>, more: Seq<u8>, max: u32)
    ensures
        frames_in(pending + more, max) == frames_in(pending, max) + frames_in(
            left_in(pending, max) + more,
            max,
        ),
        left_in(pending + more, max) == left_in(left_in(pending, max) + more, max),
    decreases pending.len(),
{
    lemma_next_stable(pending, more, max);
    match next_in(pending, max) {
        Next::Frame(payload) => {
            let n = 4 + payload.len() as int;
            let rest = pending.subrange(n, pending.len() as int);
            assert((pending + more).subrange(n, (pending + more).len() as int) =~= rest + more);
            law_chunks_do_not_matter(rest, more, max);
            assert(frames_in(pending + more, max) =~= frames_in(pending, max) + frames_in(
                left_in(pending, max) + more,
                max,
            ));
        },
        _ => {
            assert(frames_in(pending, max) + frames_in(pending + more, max) =~= frames_in(
                pending + more,
                max,
            ));
        },
    }
}

/// A frame at the front of some bytes is read.
pub proof fn lemma_frame_read(payload: Seq<u8>, rest: Seq<u8>, max: u32)
    requires
        payload.len() <= max,
    ensures
        ({
            let all = frame_bytes(payload) + rest;
            &&& next_in(all, max) == Next::Frame(payload)
            &&& all.subrange(4 + payload.len() as int, all.len() as int) == rest
        }),
{
    let all = frame_bytes(payload) + rest;
    le::lemma_le_bytes_len(payload.len(), 4);
    le::lemma_fits(payload.len());
    assert(all.subrange(0, 4) =~= le::le_bytes(payload.len(), 4));
    le::lemma_le_at(all, 0, payload.len(), 4);
    assert(all.subrange(4, 4 + payload.len() as int) =~= payload);
    assert(all.subrange(4 + payload.len() as int, all.len() as int) =~= rest);
}

/// What is encoded is decoded: the frames of a stream of encoded payloads are
/// those payloads, and nothing is left.
pub proof fn law_frames_round_trip(payloads: Seq<Seq<u8>>, max: u32)
    requires
        forall|k: int| 0 <= k < payloads.len() ==> (#[trigger] payloads[k]).len() <= max,
    ensures
        frames_in(stream_bytes(payloads), max) == payloads,
        left_in(stream_bytes(payloads), max) == Seq::<u8>::empty(),
    decreases payloads.len(),
{
    if payloads.len() == 0 {
        assert(payloads =~= Seq::<Seq<u8>>::empty());
    } else {
        let p = payloads[0];
        let rest = payloads.drop_first();
        let all = stream_bytes(payloads);
        assert(payloads[0].len() <= max);
        lemma_frame_read(p, stream_bytes(rest), max);
        assert(all =~= frame_bytes(p) + stream_bytes(rest));
        assert forall|k: int| 0 <= k < rest.len() implies (#[trigger] rest[k]).len() <= max by {
            assert(rest[k] == payloads[k + 1]);
        }
        law_frames_round_trip(rest, max);
        assert(seq![p] + rest =~= payloads);
    }
}

/// The body of a tagged response frame: the bytes of a JSON document, or a
/// page of results.
#[derive(Clone, Debug, PartialEq)]
pub enum RespFrame {
    Json(Vec<u8>),
    Results(QueryResults),
}

/// A tagged response frame that cannot be decoded.
#[derive(Clone, Copy, Debug, PartialEq, Eq)]
pub enum RespFrameError {
    /// The page of results is malformed.
    Binary(BinError),
    /// The first byte is no known tag.
    UnknownTag(u8),
    /// There is no tag byte.
    Empty,
}

impl RespFrameError {
    /// The error in words.
    pub fn message(&self) -> (s: String)
        ensures
            s@ == match *self {
                RespFrameError::Binary(e) => "malformed binary results page: "@ + e.what(),
                RespFrameError::UnknownTag(t) => "unknown response frame tag "@ + text::decimal(
                    t as nat,
                ),
                RespFrameError::Empty => "empty response frame"@,
            },
    {
        match self {
            RespFrameError::Binary(e) => e.message(),
            RespFrameError::UnknownTag(t) => {
                let mut s = String::from_str("unknown response frame tag ");
                text::push_decimal(&mut s, *t as u64);
                s
            },
            RespFrameError::Empty => String::from_str("empty response frame"),
        }
    }
}

/// What a tagged frame says.
#[verifier::ext_equal]
pub ghost enum RespModel {
    Json(Seq<u8>),
    Results(types::PageModel),
}

impl RespFrame {
    pub open spec fn model(&self) -> RespModel {
        match self {
            RespFrame::Json(b) => RespModel::Json(b@),
            RespFrame::Results(p) => RespModel::Results(p.model()),
        }
    }
}

/// The payload of a tagged frame.
pub open spec fn resp_bytes(resp: RespModel) -> Seq<u8> {
    match resp {
        RespModel::Json(b) => seq![binary::RESP_TAG_JSON] + b,
        RespModel::Results(p) => binary::page_bytes(p),
    }
}

/// Appends a response as one tagged frame; returns whether it fits in one. If
/// it does not, nothing is appended.
pub fn encode_response_frame(resp: &RespFrame, out: &mut Vec<u8>) -> (fits: bool)
    ensures
        fits == (resp_bytes(resp.model()).len() <= u32::MAX),
        fits ==> final(out)@ == old(out)@ + frame_bytes(resp_bytes(resp.model())),
        !fits ==> final(out)@ == old(out)@,
{
    let mut payload: Vec<u8> = Vec::new();
    match resp {
        RespFrame::Results(page) => {
            binary::encode_results_payload(page, &mut payload);
        },
        RespFrame::Json(body) => {
            payload.push(binary::RESP_TAG_JSON);
            payload.extend_from_slice(body.as_slice());
        },
    }
    assert(payload@ =~= resp_bytes(resp.model()));
    if payload.len() > u32::MAX as usize {
        return false;
    }
    encode_frame(payload.as_slice(), out);
    true
}

/// Decodes one tagged response frame.
pub fn decode_response_frame(frame: &[u8]) -> (r: Result<RespFrame, RespFrameError>)
    ensures
        frame@.len() == 0 ==> r is Err && r->Err_0 is Empty,
        frame@.len() > 0 && frame@[0] == binary::RESP_TAG_JSON ==> r is Ok && r->Ok_0.model()
            == RespModel::Json(frame@.drop_first()),
        frame@.len() > 0 && frame@[0] == binary::RESP_TAG_RESULTS ==> match binary::page_in(
            frame@.drop_first(),
        ) {
            Ok(p) => r is Ok && r->Ok_0.model() == RespModel::Results(p),
            Err(e) => r is Err && r->Err_0 is Binary && r->Err_0->Binary_0.what() == e,
        },
        frame@.len() > 0 && frame@[0] > 1 ==> r is Err && r->Err_0 == RespFrameError::UnknownTag(
            frame@[0],
        ),
{
    if frame.len() == 0 {
        return Err(RespFrameError::Empty);
    }
    let tag = frame[0];
    let body = vstd::slice::slice_subrange(frame, 1, frame.len());
    assert(body@ =~= frame@.drop_first());
    if tag == binary::RESP_TAG_JSON {
        Ok(RespFrame::Json(vstd::slice::slice_to_vec(body)))
    } else if tag == binary::RESP_TAG_RESULTS {
        match binary::decode_results_payload(body) {
            Ok(page) => Ok(RespFrame::Results(page)),
            Err(e) => Err(RespFrameError::Binary(e)),
        }
    } else {
        Err(RespFrameError::UnknownTag(tag))
    }
}

} // verus!
