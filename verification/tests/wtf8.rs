use goz::wtf8::{from_utf16, to_string_lossy, to_utf16, CodePoints};

fn wtf8(units: &[u16]) -> (Vec<u8>, bool) {
    let mut out = Vec::new();
    let lossy = from_utf16(units, &mut out);
    (out, lossy)
}

#[test]
fn ascii_is_identity() {
    let units: Vec<u16> = "hello.TXT".encode_utf16().collect();
    let (bytes, lone) = wtf8(&units);
    assert_eq!(bytes, b"hello.TXT");
    assert!(!lone);
}

#[test]
fn bmp_and_supplementary_match_utf8() {
    for s in ["ağaç.pdf", "文件名.txt", "emoji-🎉-😀.png", "ß.md"] {
        let units: Vec<u16> = s.encode_utf16().collect();
        let (bytes, lone) = wtf8(&units);
        assert_eq!(bytes, s.as_bytes());
        assert!(!lone);
        assert_eq!(to_string_lossy(&bytes), s);
    }
}

#[test]
fn lone_surrogates_round_trip_exactly() {
    // high-lone, low-lone, high-at-end
    for units in [
        vec![0x0061, 0xD800, 0x0062],
        vec![0xDC00, 0x0041],
        vec![0x0041, 0xD9FF],
    ] {
        let (bytes, lone) = wtf8(&units);
        assert!(lone);
        assert_eq!(to_utf16(&bytes), units, "units {units:X?}");
        // Lossy form replaces the surrogate but never fails.
        assert!(to_string_lossy(&bytes).contains('\u{FFFD}'));
    }
}

#[test]
fn paired_surrogates_do_not_flag_lossy() {
    // "𝄞" = U+1D11E = D834 DD1E
    let units = vec![0xD834, 0xDD1E];
    let (bytes, lone) = wtf8(&units);
    assert!(!lone);
    assert_eq!(to_string_lossy(&bytes), "𝄞");
    assert_eq!(to_utf16(&bytes), units);
}

#[test]
fn decoder_survives_malformed_bytes() {
    // Truncated multi-byte seq + stray continuation: FFFDs, no panic.
    let got = points(&[0xE0, 0x80, b'a', 0xFF]);
    assert!(got.contains(&(b'a' as u32)));
    assert!(got.contains(&0xFFFD));
}

#[test]
fn overlong_and_over_range_decode_to_replacement() {
    // Overlong '/' (2- and 3-byte forms) must NOT canonicalize to a real
    // slash: that would let a corrupt blob smuggle a path separator.
    assert!(!to_string_lossy(&[0xC0, 0xAF]).contains('/'));
    assert!(to_string_lossy(&[0xC0, 0xAF]).contains('\u{FFFD}'));
    assert!(!to_string_lossy(&[0xE0, 0x80, 0xAF]).contains('/'));
    // 4-byte value above U+10FFFF (0x1FFFFF) is rejected (resynced one byte
    // at a time to U+FFFD), not turned into a garbage surrogate pair.
    let over = to_utf16(&[0xF7, 0xBF, 0xBF, 0xBF]);
    assert!(!over.is_empty() && over.iter().all(|&u| u == 0xFFFD));
    // A genuine lone surrogate (3-byte, cp >= 0x800) is still accepted.
    let mut sur = Vec::new();
    from_utf16(&[0xD800], &mut sur);
    assert_eq!(to_utf16(&sur), vec![0xD800]);
}

fn points(bytes: &[u8]) -> Vec<u32> {
    let mut walk = CodePoints::new(bytes);
    let mut out = Vec::new();
    while let Some(cp) = walk.next() {
        out.push(cp);
    }
    out
}

/// A small generator of test data: the same values in every run.
struct Rng(u64);

impl Rng {
    fn next(&mut self) -> u64 {
        self.0 ^= self.0 << 13;
        self.0 ^= self.0 >> 7;
        self.0 ^= self.0 << 17;
        self.0
    }

    fn below(&mut self, n: u64) -> u64 {
        self.next() % n
    }
}

#[test]
fn utf16_round_trips_through_wtf8() {
    let mut rng = Rng(0x0BAD_5EED_0BAD_5EED);
    for round in 0..300 {
        let mut units: Vec<u16> = Vec::new();
        for _ in 0..rng.below(64) {
            if round % 2 == 0 {
                units.push(rng.below(0x10000) as u16);
            } else {
                units.push(0xD700 + rng.below(0xA00) as u16);
            }
        }
        let mut bytes = Vec::new();
        from_utf16(&units, &mut bytes);
        assert_eq!(to_utf16(&bytes), units);
    }
}

#[test]
fn decoder_total_on_arbitrary_bytes() {
    let mut rng = Rng(0x5555_AAAA_1234_4321);
    for _ in 0..300 {
        let mut bytes: Vec<u8> = Vec::new();
        for _ in 0..rng.below(128) {
            bytes.push(rng.below(256) as u8);
        }
        assert!(points(&bytes).len() <= bytes.len());
        assert!(to_string_lossy(&bytes).chars().count() <= bytes.len());
    }
}

#[test]
fn code_points_are_exact() {
    assert_eq!(points("aß文🎉".as_bytes()), vec![0x61, 0xDF, 0x6587, 0x1F389]);
    assert_eq!(points(&[0xED, 0xA0, 0x80]), vec![0xD800]);
    assert_eq!(points(&[0xC0, 0xAF]), vec![0xFFFD, 0xFFFD]);
    assert_eq!(to_string_lossy(&[0x61, 0xED, 0xA0, 0x80, 0x62]), "a\u{FFFD}b");
}
