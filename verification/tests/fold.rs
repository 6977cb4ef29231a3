use goz::fold::{fold, fold_into};

#[test]
fn ascii_folds_case() {
    assert_eq!(fold(b"Report.PDF"), b"report.pdf");
    assert_eq!(fold(b"already lower"), b"already lower");
    assert_eq!(fold(b"MiXeD123"), b"mixed123");
}

#[test]
fn fold_is_idempotent() {
    for s in ["Foo", "ÇAĞAÇ", "Straße", "ФайЛ"] {
        let once = fold(s.as_bytes());
        let twice = fold(&once);
        assert_eq!(once, twice, "fold not idempotent for {s}");
    }
}

#[test]
fn needle_and_haystack_fold_consistently() {
    // A folded needle is found in a folded haystack regardless of the
    // original case of either.
    let hay = fold("MyÇAĞAÇFile".as_bytes());
    let needle = fold("çağaç".as_bytes());
    assert!(
        hay.windows(needle.len()).any(|w| w == needle.as_slice()),
        "case-insensitive substring should match across cases"
    );
}

#[test]
fn non_ascii_lowercases() {
    // Turkish/Cyrillic uppercase → lowercase (via NFD + simple lowercase).
    assert!(!fold("İ".as_bytes()).is_empty());
    // Case-insensitive Cyrillic: upper and lower fold to the same thing.
    assert_eq!(fold("ФАЙЛ".as_bytes()), fold("файл".as_bytes()));
}

#[test]
fn nfc_and_nfd_fold_identically() {
    // "café": precomposed (NFC, é = U+00E9) vs decomposed (NFD, e + U+0301)
    // must fold to the same bytes so a query matches regardless of the
    // normalization form the filename was stored in.
    let nfc = "caf\u{00E9}"; // café, precomposed
    let nfd = "cafe\u{0301}"; // café, e + combining acute
    assert_ne!(nfc.as_bytes(), nfd.as_bytes(), "inputs differ byte-wise");
    assert_eq!(fold(nfc.as_bytes()), fold(nfd.as_bytes()));
    // Combining marks are kept (not accent-stripped): "cafe" ≠ "café".
    // Byte inequality is too weak on its own: see
    // folding_is_not_accent_insensitive for the invariant that matters.
    assert_ne!(fold("cafe".as_bytes()), fold(nfc.as_bytes()));
}

/// Unifying the normalization form must not smuggle in accent-insensitivity.
///
/// Byte inequality was too weak to catch that: emitting the DECOMPOSED form
/// left the folded name as "cafe" + U+0301, which is unequal to "cafe" while
/// still CONTAINING it, so every substring query for "cafe" matched it. The
/// invariant that matters is that the folded needle does not OCCUR in the
/// folded haystack.
#[test]
fn folding_is_not_accent_insensitive() {
    let needle = fold("cafe".as_bytes());
    for spelling in ["caf\u{00E9}", "cafe\u{0301}"] {
        let hay = fold(spelling.as_bytes());
        assert!(
            !hay.windows(needle.len()).any(|w| w == needle.as_slice()),
            "{spelling:?}: a search for cafe must not match an accented name"
        );
    }
    // The same rule from the other side: a genuinely distinct letter stays
    // distinct through the decompose/recompose round trip. Cyrillic U+0439
    // decomposes to U+0438 + U+0306.
    assert_ne!(fold("\u{0439}".as_bytes()), fold("\u{0438}".as_bytes()));
}

/// A precomposed character folds to ONE code point, so `?` (which matches
/// exactly one) keeps counting visible characters. The decomposed form made
/// a 4-character name 5 code points and quietly broke `????`.
#[test]
fn folding_preserves_code_point_arity() {
    for spelling in ["caf\u{00E9}", "cafe\u{0301}"] {
        let folded = fold(spelling.as_bytes());
        assert_eq!(
            goz::wtf8::to_utf16(&folded).len(),
            4,
            "{spelling:?} must fold to 4 code points, not a decomposed 5"
        );
    }
}

#[test]
fn surrogates_pass_through() {
    // Lone high surrogate embedded in WTF-8 survives folding.
    let mut bytes = Vec::new();
    goz::wtf8::from_utf16(&[0x0041, 0xD800, 0x0042], &mut bytes);
    let folded = fold(&bytes);
    // 'A' → 'a', 'B' → 'b', surrogate unchanged.
    assert_eq!(goz::wtf8::to_utf16(&folded), vec![0x0061, 0xD800, 0x0062]);
}

/// A small generator of test data: the same values in every run.
struct Rng(u64);

impl Rng {
    fn next(&mut self) -> u64 {
        self.0 ^= self.0 << 13;
        self.0 ^= self.0 >> 7;
        self.0 ^= self.0 << 17;
        self.0
    }

    fn below(&mut self, n: u64) -> u64 {
        self.next() % n
    }
}

#[test]
fn fold_is_total_and_idempotent() {
    let mut rng = Rng(0x2545_F491_4F6C_DD1D);
    for round in 0..300 {
        let mut units: Vec<u16> = Vec::new();
        for _ in 0..rng.below(64) {
            let top = if round % 2 == 0 { 0x10000 } else { 0x600 };
            units.push(rng.below(top) as u16);
        }
        let mut bytes = Vec::new();
        goz::wtf8::from_utf16(&units, &mut bytes);
        let once = fold(&bytes);
        let twice = fold(&once);
        assert_eq!(once, twice);
    }
}

#[test]
fn fold_never_panics_on_arbitrary_bytes() {
    let mut rng = Rng(0x1234_5678_9ABC_DEF1);
    for _ in 0..300 {
        let mut bytes: Vec<u8> = Vec::new();
        for _ in 0..rng.below(128) {
            bytes.push(rng.below(256) as u8);
        }
        let mut out = vec![7u8];
        fold_into(&bytes, &mut out);
        assert_eq!(out[0], 7);
        assert_eq!(out[1..].to_vec(), fold(&bytes));
    }
}

#[test]
fn fold_gives_exact_bytes() {
    assert_eq!(fold("É".as_bytes()), "é".as_bytes());
    assert_eq!(fold("E\u{0301}".as_bytes()), "\u{E9}".as_bytes());
    assert_eq!(fold("ФАЙЛ".as_bytes()), "файл".as_bytes());
    assert_eq!(fold("Straße".as_bytes()), "straße".as_bytes());
    assert_eq!(fold(b""), b"");
}
