use goz::proto::{
    decode_response_frame, encode_frame, encode_response_frame, FrameDecoder, FrameError,
    QueryResults, RespFrame, RespFrameError, ResultItem, MAX_CLIENT_FRAME,
};


/// Drains every currently-complete frame out of `dec`.
fn drain(dec: &mut FrameDecoder) -> Vec<Vec<u8>> {
    let mut out = Vec::new();
    while let Some(f) = dec.next_frame().expect("unexpected TooLarge") {
        out.push(f);
    }
    out
}

#[test]
fn encode_frame_prefixes_length_le() {
    let mut out = Vec::new();
    encode_frame(b"abc", &mut out);
    assert_eq!(out, [3, 0, 0, 0, b'a', b'b', b'c']);
}

#[test]
fn one_byte_at_a_time() {
    let mut wire = Vec::new();
    encode_frame(b"hello", &mut wire);
    let mut dec = FrameDecoder::new(1024);
    for (i, b) in wire.iter().enumerate() {
        let popped = dec.next_frame().expect("no error");
        assert_eq!(popped, None, "frame appeared before byte {i} was fed");
        dec.feed(&[*b]);
    }
    assert_eq!(dec.next_frame(), Ok(Some(b"hello".to_vec())));
    assert_eq!(dec.next_frame(), Ok(None));
}

#[test]
fn prefix_split_across_feeds() {
    let mut wire = Vec::new();
    encode_frame(b"xy", &mut wire);
    let mut dec = FrameDecoder::new(1024);
    dec.feed(&wire[..2]); // half the length prefix
    assert_eq!(dec.next_frame(), Ok(None));
    dec.feed(&wire[2..4]); // rest of the prefix, no body yet
    assert_eq!(dec.next_frame(), Ok(None));
    dec.feed(&wire[4..]);
    assert_eq!(dec.next_frame(), Ok(Some(b"xy".to_vec())));
}

#[test]
fn multiple_frames_in_one_feed() {
    let payloads: [&[u8]; 3] = [b"first", b"", b"third-frame"];
    let mut wire = Vec::new();
    for p in payloads {
        encode_frame(p, &mut wire);
    }
    let mut dec = FrameDecoder::new(1024);
    dec.feed(&wire);
    let got = drain(&mut dec);
    assert_eq!(got, payloads.map(<[u8]>::to_vec));
}

#[test]
fn empty_payload_frame() {
    let mut wire = Vec::new();
    encode_frame(b"", &mut wire);
    assert_eq!(wire, [0, 0, 0, 0]);
    let mut dec = FrameDecoder::new(0);
    dec.feed(&wire);
    assert_eq!(dec.next_frame(), Ok(Some(Vec::new())));
    assert_eq!(dec.next_frame(), Ok(None));
}

#[test]
fn oversize_rejected_on_prefix_alone_and_sticky() {
    let mut dec = FrameDecoder::new(8);
    // Announce a 9-byte frame but send NO body: rejection must not wait
    // for the body to arrive.
    dec.feed(&9u32.to_le_bytes());
    let err = FrameError::TooLarge { len: 9, max: 8 };
    assert_eq!(dec.next_frame(), Err(err));
    // Poisoned: even a subsequently fed valid frame never comes out.
    let mut valid = Vec::new();
    encode_frame(b"ok", &mut valid);
    dec.feed(&valid);
    let err = FrameError::TooLarge { len: 9, max: 8 };
    assert_eq!(dec.next_frame(), Err(err));
    let err = FrameError::TooLarge { len: 9, max: 8 };
    assert_eq!(dec.next_frame(), Err(err));
}

#[test]
fn frame_at_exact_cap_is_accepted() {
    let payload = vec![0xAB; 8];
    let mut wire = Vec::new();
    encode_frame(&payload, &mut wire);
    let mut dec = FrameDecoder::new(8);
    dec.feed(&wire);
    assert_eq!(dec.next_frame(), Ok(Some(payload)));
}

#[test]
fn error_message_names_len_and_cap() {
    let msg = FrameError::TooLarge { len: 9, max: 8 }.message();
    assert_eq!(msg, "frame of 9 bytes exceeds cap 8");
}

#[test]
fn many_frames_exercise_compaction() {
    // Enough consumed bytes to cross COMPACT_THRESHOLD several times.
    let payloads: Vec<Vec<u8>> = (0..200u32)
        .map(|i| vec![(i % 251) as u8; 2000 + i as usize])
        .collect();
    let mut wire = Vec::new();
    for p in &payloads {
        encode_frame(p, &mut wire);
    }
    let mut dec = FrameDecoder::new(MAX_CLIENT_FRAME);
    // Interleave feeding and popping so the buffer holds a partial tail
    // while compaction fires.
    let mut got = Vec::new();
    for chunk in wire.chunks(30_000) {
        dec.feed(chunk);
        got.extend(drain(&mut dec));
    }
    assert_eq!(got, payloads);
}

/// A small generator of test data: the same values in every run.
struct Rng(u64);

impl Rng {
    fn next(&mut self) -> u64 {
        self.0 ^= self.0 << 13;
        self.0 ^= self.0 >> 7;
        self.0 ^= self.0 << 17;
        self.0
    }

    fn below(&mut self, n: u64) -> u64 {
        self.next() % n
    }
}

#[test]
fn arbitrary_chunk_splits_recover_all_payloads() {
    let mut rng = Rng(0xFEED_FACE_CAFE_BEEF);
    for _ in 0..60 {
        let mut payloads: Vec<Vec<u8>> = Vec::new();
        for _ in 0..rng.below(12) {
            let mut p = Vec::new();
            for _ in 0..rng.below(300) {
                p.push(rng.below(256) as u8);
            }
            payloads.push(p);
        }
        let mut wire = Vec::new();
        for p in &payloads {
            encode_frame(p, &mut wire);
        }
        let mut dec = FrameDecoder::new(MAX_CLIENT_FRAME);
        let mut got = Vec::new();
        let mut i = 0;
        while i < wire.len() {
            let n = (1 + rng.below(16) as usize).min(wire.len() - i);
            dec.feed(&wire[i..i + n]);
            i += n;
            while let Some(f) = dec.next_frame().expect("payloads are under the cap") {
                got.push(f);
            }
        }
        assert_eq!(got, payloads);
        assert_eq!(dec.next_frame(), Ok(None));
    }
}

fn page() -> QueryResults {
    QueryResults {
        total: 2,
        items: vec![ResultItem {
            path: "C:\\a".to_string(),
            path_u16: None,
            size: Some(3),
            mtime_ft: None,
            is_dir: false,
        }],
        more: true,
        volumes_incomplete: false,
        metadata_pending: true,
        generation: 9,
    }
}

#[test]
fn tagged_frames_round_trip() {
    for resp in [RespFrame::Results(page()), RespFrame::Json(b"{\"t\":1}".to_vec())] {
        let mut wire = Vec::new();
        assert!(encode_response_frame(&resp, &mut wire));
        let mut dec = FrameDecoder::new(MAX_CLIENT_FRAME);
        dec.feed(&wire);
        let frame = dec.next_frame().expect("no error").expect("one frame");
        assert_eq!(decode_response_frame(&frame), Ok(resp));
        assert_eq!(dec.next_frame(), Ok(None));
    }
}

#[test]
fn tagged_frames_that_make_no_sense() {
    assert_eq!(decode_response_frame(&[]), Err(RespFrameError::Empty));
    assert_eq!(decode_response_frame(&[9, 1, 2]), Err(RespFrameError::UnknownTag(9)));
    assert_eq!(RespFrameError::Empty.message(), "empty response frame");
    assert_eq!(RespFrameError::UnknownTag(9).message(), "unknown response frame tag 9");
    let short = decode_response_frame(&[1, 0, 0]).expect_err("no header");
    assert!(short.message().starts_with("malformed binary results page: "));
}
