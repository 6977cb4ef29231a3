use goz::layout::parse::{FILE_LEN, HEADER_LEN, INFO_LEN, NAME_LEN, STREAM_LEN};
use goz::layout::{
    walk_layout_buffer, LayoutFile, LayoutName, LayoutWalkError, FILE_LAYOUT_NAME_ENTRY_DOS,
    FILE_LAYOUT_NAME_ENTRY_PRIMARY, QUERY_FILE_LAYOUT_RESTART, RECOMMENDED_LAYOUT_FLAGS,
};
use goz::types::Frn;
use goz::wtf8;

/// Size of the `FILE_LAYOUT_INFO_ENTRY` block the builder emits (the legacy
/// "all fields up to Usn" length; the parser only reads the first 24 bytes).
const INFO_ENTRY_LEN: usize = 56;

/// One hard-link name in a fixture file.
#[derive(Clone, Debug)]
pub struct LayoutNameFixture {
    /// FRN of the containing directory.
    pub parent_frn: u64,
    /// Raw UTF-16 code units of the name (may contain unpaired surrogates).
    pub units: Vec<u16>,
    /// `FILE_LAYOUT_NAME_ENTRY.Flags` (PRIMARY / DOS bits).
    pub flags: u32,
}

impl LayoutNameFixture {
    /// A normal long name (PRIMARY flag set).
    pub fn primary(parent_frn: u64, name: &str) -> Self {
        Self {
            parent_frn,
            units: name.encode_utf16().collect(),
            flags: FILE_LAYOUT_NAME_ENTRY_PRIMARY,
        }
    }

    /// An 8.3 DOS-only alias (DOS flag only).
    pub fn dos_only(parent_frn: u64, name: &str) -> Self {
        Self {
            parent_frn,
            units: name.encode_utf16().collect(),
            flags: FILE_LAYOUT_NAME_ENTRY_DOS,
        }
    }

    fn dos_only_flag(&self) -> bool {
        self.flags & FILE_LAYOUT_NAME_ENTRY_DOS != 0
            && self.flags & FILE_LAYOUT_NAME_ENTRY_PRIMARY == 0
    }

    fn expected(&self) -> LayoutName {
        let mut name = Vec::new();
        let name_lossy = wtf8::from_utf16(&self.units, &mut name);
        LayoutName {
            parent_frn: Frn(self.parent_frn),
            name,
            name_lossy,
            dos_only: self.dos_only_flag(),
        }
    }
}

/// Extra-info entry carrying the last-write time.
#[derive(Clone, Debug)]
pub struct LayoutInfoFixture {
    /// `LastWriteTime` as a Windows FILETIME.
    pub mtime: i64,
}

impl LayoutInfoFixture {
    pub fn with_mtime(mtime: i64) -> Self {
        Self { mtime }
    }
}

/// One `STREAM_LAYOUT_ENTRY` in a fixture file.
#[derive(Clone, Debug)]
pub struct LayoutStreamFixture {
    /// UTF-16 code units of the stream identifier (empty = the unnamed `$DATA`
    /// stream's empty-identifier form).
    pub identifier_units: Vec<u16>,
    /// Whether this stream is the unnamed `$DATA` stream (drives the expected
    /// size). Kept in lockstep with the identifier the constructor writes.
    pub is_unnamed_data: bool,
    /// `EndOfFile` (logical size).
    pub eof: i64,
}

impl LayoutStreamFixture {
    /// The unnamed `$DATA` stream in NTFS's empty-identifier form.
    pub fn unnamed_data(eof: i64) -> Self {
        Self {
            identifier_units: Vec::new(),
            is_unnamed_data: true,
            eof,
        }
    }

    /// The unnamed `$DATA` stream spelled explicitly as `::$DATA`.
    pub fn unnamed_data_explicit(eof: i64) -> Self {
        Self {
            identifier_units: "::$DATA".encode_utf16().collect(),
            is_unnamed_data: true,
            eof,
        }
    }

    /// A named alternate data stream (e.g. `Zone.Identifier`), which must NOT
    /// be treated as the file's size.
    pub fn named_data(name: &str, eof: i64) -> Self {
        let identifier = format!(":{name}:$DATA");
        Self {
            identifier_units: identifier.encode_utf16().collect(),
            is_unnamed_data: false,
            eof,
        }
    }
}

/// A complete fixture file: the `FILE_LAYOUT_ENTRY` fields plus its satellite
/// chains.
#[derive(Clone, Debug)]
pub struct LayoutFileFixture {
    /// NTFS file reference number.
    pub frn: u64,
    /// `FILE_ATTRIBUTE_*` bits (0x10 = directory).
    pub attributes: u32,
    /// Hard-link names, in chain order.
    pub names: Vec<LayoutNameFixture>,
    /// Optional extra-info entry (timestamps).
    pub info: Option<LayoutInfoFixture>,
    /// Stream entries, in chain order.
    pub streams: Vec<LayoutStreamFixture>,
}

impl LayoutFileFixture {
    /// The [`LayoutFile`] the parser must produce for this fixture, the
    /// oracle every round-trip test compares against.
    pub fn expected(&self) -> LayoutFile {
        let is_dir = self.attributes & 0x10 != 0;
        let names = self.names.iter().map(LayoutNameFixture::expected).collect();
        let mtime_ft = self.info.as_ref().map(|i| i.mtime);
        let size = if is_dir {
            None
        } else {
            self.streams
                .iter()
                .find(|s| s.is_unnamed_data)
                .map(|s| s.eof.max(0) as u64)
        };
        LayoutFile {
            frn: Frn(self.frn),
            attributes: self.attributes,
            size,
            mtime_ft,
            names,
        }
    }
}

fn push_u32(buf: &mut Vec<u8>, v: u32) {
    buf.extend_from_slice(&v.to_le_bytes());
}
fn push_u64(buf: &mut Vec<u8>, v: u64) {
    buf.extend_from_slice(&v.to_le_bytes());
}
fn push_i64(buf: &mut Vec<u8>, v: i64) {
    buf.extend_from_slice(&v.to_le_bytes());
}
fn patch_u32(buf: &mut [u8], at: usize, v: u32) {
    buf[at..at + 4].copy_from_slice(&v.to_le_bytes());
}

/// Builds a byte-exact `QUERY_FILE_LAYOUT` output buffer for `files`. An empty
/// slice yields just the 16-byte header with `FileEntryCount == 0`.
pub fn build_layout_buffer(files: &[LayoutFileFixture]) -> Vec<u8> {
    let mut buf = Vec::new();
    // QUERY_FILE_LAYOUT_OUTPUT header (16 bytes).
    push_u32(&mut buf, files.len() as u32); // FileEntryCount
    let first_file_off_pos = buf.len();
    push_u32(&mut buf, 0); // FirstFileOffset (patched below)
    push_u32(&mut buf, 0); // Flags
    push_u32(&mut buf, 0); // Reserved

    if files.is_empty() {
        return buf;
    }

    let first_entry_off = buf.len();
    patch_u32(&mut buf, first_file_off_pos, first_entry_off as u32);

    let mut prev_entry_off: Option<usize> = None;
    for file in files {
        let entry_off = buf.len();
        if let Some(prev) = prev_entry_off {
            // FILE_LAYOUT_ENTRY.NextFileOffset lives at prev + 4.
            patch_u32(&mut buf, prev + 4, (entry_off - prev) as u32);
        }
        append_file(&mut buf, entry_off, file);
        prev_entry_off = Some(entry_off);
    }
    buf
}

/// Appends one `FILE_LAYOUT_ENTRY` and its chains, back-patching the entry's
/// satellite offset fields once each chain's absolute position is known.
fn append_file(buf: &mut Vec<u8>, entry_off: usize, file: &LayoutFileFixture) {
    // FILE_LAYOUT_ENTRY (40 bytes).
    push_u32(buf, 1); // Version
    push_u32(buf, 0); // NextFileOffset (patched by caller)
    push_u32(buf, 0); // Flags
    push_u32(buf, file.attributes); // FileAttributes
    push_u64(buf, file.frn); // FileReferenceNumber
    let first_name_pos = buf.len();
    push_u32(buf, 0); // FirstNameOffset (patched below)
    let first_stream_pos = buf.len();
    push_u32(buf, 0); // FirstStreamOffset (patched below)
    let extra_info_pos = buf.len();
    push_u32(buf, 0); // ExtraInfoOffset (patched below)
    let extra_info_len_pos = buf.len();
    push_u32(buf, 0); // ExtraInfoLength (patched below)

    // Name chain.
    if !file.names.is_empty() {
        let rel = (buf.len() - entry_off) as u32;
        patch_u32(buf, first_name_pos, rel);
        let mut prev_name_off: Option<usize> = None;
        for name in &file.names {
            let name_off = buf.len();
            if let Some(prev) = prev_name_off {
                // NextNameOffset is the first field of FILE_LAYOUT_NAME_ENTRY.
                patch_u32(buf, prev, (name_off - prev) as u32);
            }
            push_u32(buf, 0); // NextNameOffset (patched)
            push_u32(buf, name.flags); // Flags
            push_u64(buf, name.parent_frn); // ParentFileReferenceNumber
            push_u32(buf, (name.units.len() * 2) as u32); // FileNameLength (bytes)
            push_u32(buf, 0); // Reserved
            for &u in &name.units {
                buf.extend_from_slice(&u.to_le_bytes());
            }
            prev_name_off = Some(name_off);
        }
    }

    // Extra-info entry.
    if let Some(info) = &file.info {
        let rel = (buf.len() - entry_off) as u32;
        patch_u32(buf, extra_info_pos, rel);
        patch_u32(buf, extra_info_len_pos, INFO_ENTRY_LEN as u32);
        // FILE_LAYOUT_INFO_ENTRY.BasicInformation: the parser reads the first
        // 24 bytes (CreationTime, LastAccessTime, LastWriteTime).
        push_i64(buf, 0); // CreationTime
        push_i64(buf, 0); // LastAccessTime
        push_i64(buf, info.mtime); // LastWriteTime
        // Remainder up to INFO_ENTRY_LEN (ChangeTime, attrs, ids, Usn): the
        // parser never reads these; zeros keep offsets honest.
        buf.resize(buf.len() + (INFO_ENTRY_LEN - 24), 0);
    }

    // Stream chain.
    if !file.streams.is_empty() {
        let rel = (buf.len() - entry_off) as u32;
        patch_u32(buf, first_stream_pos, rel);
        let mut prev_stream_off: Option<usize> = None;
        for stream in &file.streams {
            let stream_off = buf.len();
            if let Some(prev) = prev_stream_off {
                // NextStreamOffset lives at STREAM_LAYOUT_ENTRY + 4.
                patch_u32(buf, prev + 4, (stream_off - prev) as u32);
            }
            push_u32(buf, 1); // Version
            push_u32(buf, 0); // NextStreamOffset (patched)
            push_u32(buf, 0); // Flags
            push_u32(buf, 0); // ExtentInformationOffset
            push_i64(buf, 0); // AllocationSize
            push_i64(buf, stream.eof); // EndOfFile
            push_u32(buf, 0); // StreamInformationOffset
            push_u32(buf, 0); // AttributeTypeCode
            push_u32(buf, 0); // AttributeFlags
            push_u32(buf, (stream.identifier_units.len() * 2) as u32); // StreamIdentifierLength
            for &u in &stream.identifier_units {
                buf.extend_from_slice(&u.to_le_bytes());
            }
            prev_stream_off = Some(stream_off);
        }
    }
}


// Field byte offsets within a single-file buffer built by the fixture
// builder: header 0..16, FILE_LAYOUT_ENTRY at 16, first
// FILE_LAYOUT_NAME_ENTRY at 56.
const ENTRY: usize = 16;
const ENTRY_NEXT_FILE_OFFSET: usize = ENTRY + 4;
const ENTRY_FIRST_NAME_OFFSET: usize = ENTRY + 24;
const ENTRY_EXTRA_INFO_LENGTH: usize = ENTRY + 36;
const NAME: usize = 56;
const NAME_NEXT_NAME_OFFSET: usize = NAME;
const NAME_FILE_NAME_LENGTH: usize = NAME + 16;

fn one_file() -> LayoutFileFixture {
    LayoutFileFixture {
        frn: 0x0002_0000_0000_002A,
        attributes: 0x20,
        names: vec![LayoutNameFixture::primary(5, "report.pdf")],
        info: Some(LayoutInfoFixture::with_mtime(133_800_000_000_000_000)),
        streams: vec![LayoutStreamFixture::unnamed_data(4096)],
    }
}

#[test]
fn raw_views_match_on_wire_sizes() {
    assert_eq!(HEADER_LEN, 16);
    assert_eq!(FILE_LEN, 40);
    assert_eq!(NAME_LEN, 24);
    assert_eq!(INFO_LEN, 24);
    assert_eq!(STREAM_LEN, 48);
}

#[test]
fn recommended_flags_cover_names_streams_and_info() {
    assert_eq!(RECOMMENDED_LAYOUT_FLAGS, 0x36);
    assert_eq!(RECOMMENDED_LAYOUT_FLAGS & QUERY_FILE_LAYOUT_RESTART, 0);
}

#[test]
fn multi_file_chain_parses_every_entry() {
    let files = vec![
        one_file(),
        LayoutFileFixture {
            frn: 7,
            attributes: 0x10, // directory
            names: vec![LayoutNameFixture::primary(5, "src")],
            info: Some(LayoutInfoFixture::with_mtime(42)),
            streams: vec![],
        },
        LayoutFileFixture {
            frn: 9,
            attributes: 0x20,
            names: vec![LayoutNameFixture::primary(7, "main.rs")],
            info: None,
            streams: vec![LayoutStreamFixture::unnamed_data_explicit(123)],
        },
    ];
    let buf = build_layout_buffer(&files);
    let parsed = walk_layout_buffer(&buf).expect("valid fixture buffer");
    let expected: Vec<LayoutFile> = files.iter().map(LayoutFileFixture::expected).collect();
    assert_eq!(parsed, expected);
    assert_eq!(parsed[0].size, Some(4096));
    assert_eq!(parsed[0].mtime_ft, Some(133_800_000_000_000_000));
    assert_eq!(parsed[2].size, Some(123)); // explicit "::$DATA" spelling
}

#[test]
fn hard_links_keep_every_name_and_flag_dos_only() {
    let fixture = LayoutFileFixture {
        frn: 11,
        attributes: 0x20,
        names: vec![
            LayoutNameFixture::primary(5, "long file name.txt"),
            LayoutNameFixture {
                parent_frn: 8,
                units: "second-link.txt".encode_utf16().collect(),
                flags: 0, // hard link: neither PRIMARY nor DOS
            },
            LayoutNameFixture::dos_only(5, "LONGFI~1.TXT"),
        ],
        info: None,
        streams: vec![],
    };
    let buf = build_layout_buffer(std::slice::from_ref(&fixture));
    let parsed = walk_layout_buffer(&buf).expect("valid fixture buffer");
    assert_eq!(parsed.len(), 1);
    let names = &parsed[0].names;
    assert_eq!(names.len(), 3);
    assert_eq!(names[0].name, b"long file name.txt");
    assert_eq!(names[0].parent_frn, Frn(5));
    assert!(!names[0].dos_only);
    assert_eq!(names[1].parent_frn, Frn(8));
    assert!(!names[1].dos_only);
    assert_eq!(names[2].name, b"LONGFI~1.TXT");
    assert!(names[2].dos_only);
}

#[test]
fn primary_plus_dos_flags_is_not_dos_only() {
    let fixture = LayoutFileFixture {
        frn: 3,
        attributes: 0x20,
        names: vec![LayoutNameFixture {
            parent_frn: 5,
            units: "NOTES.TXT".encode_utf16().collect(),
            flags: FILE_LAYOUT_NAME_ENTRY_PRIMARY | FILE_LAYOUT_NAME_ENTRY_DOS,
        }],
        info: None,
        streams: vec![],
    };
    let buf = build_layout_buffer(std::slice::from_ref(&fixture));
    let parsed = walk_layout_buffer(&buf).expect("valid fixture buffer");
    assert!(!parsed[0].names[0].dos_only);
}

#[test]
fn missing_info_and_streams_yield_none_size_and_mtime() {
    let fixture = LayoutFileFixture {
        frn: 4,
        attributes: 0x20,
        names: vec![LayoutNameFixture::primary(5, "no-info.bin")],
        info: None,
        streams: vec![],
    };
    let buf = build_layout_buffer(std::slice::from_ref(&fixture));
    let parsed = walk_layout_buffer(&buf).expect("valid fixture buffer");
    assert_eq!(parsed[0].size, None);
    assert_eq!(parsed[0].mtime_ft, None);
}

#[test]
fn directory_size_is_none_even_with_unnamed_data_stream() {
    let fixture = LayoutFileFixture {
        frn: 6,
        attributes: 0x10,
        names: vec![LayoutNameFixture::primary(5, "weird-dir")],
        info: None,
        streams: vec![LayoutStreamFixture::unnamed_data(4096)],
    };
    let buf = build_layout_buffer(std::slice::from_ref(&fixture));
    let parsed = walk_layout_buffer(&buf).expect("valid fixture buffer");
    assert_eq!(parsed[0].size, None);
}

#[test]
fn named_streams_do_not_provide_the_size() {
    let fixture = LayoutFileFixture {
        frn: 8,
        attributes: 0x20,
        names: vec![LayoutNameFixture::primary(5, "downloaded.exe")],
        info: None,
        streams: vec![LayoutStreamFixture::named_data("Zone.Identifier", 26)],
    };
    let buf = build_layout_buffer(std::slice::from_ref(&fixture));
    let parsed = walk_layout_buffer(&buf).expect("valid fixture buffer");
    assert_eq!(parsed[0].size, None);
}

#[test]
fn negative_end_of_file_clamps_to_zero() {
    let fixture = LayoutFileFixture {
        frn: 8,
        attributes: 0x20,
        names: vec![],
        info: None,
        streams: vec![LayoutStreamFixture::unnamed_data(-5)],
    };
    let buf = build_layout_buffer(std::slice::from_ref(&fixture));
    let parsed = walk_layout_buffer(&buf).expect("valid fixture buffer");
    assert_eq!(parsed[0].size, Some(0));
}

#[test]
fn unicode_and_lone_surrogate_names() {
    let lone_units = vec![0x0061, 0xD800, 0x0062]; // "a", lone high surrogate, "b"
    let fixture = LayoutFileFixture {
        frn: 12,
        attributes: 0x20,
        names: vec![
            LayoutNameFixture::primary(5, "ağaç-🎉.pdf"),
            LayoutNameFixture {
                parent_frn: 5,
                units: lone_units.clone(),
                flags: 0,
            },
        ],
        info: None,
        streams: vec![],
    };
    let buf = build_layout_buffer(std::slice::from_ref(&fixture));
    let parsed = walk_layout_buffer(&buf).expect("valid fixture buffer");
    let names = &parsed[0].names;
    assert_eq!(names[0].name, "ağaç-🎉.pdf".as_bytes());
    assert!(!names[0].name_lossy);
    assert!(names[1].name_lossy);
    // WTF-8 round-trips the exact original code units.
    assert_eq!(wtf8::to_utf16(&names[1].name), lone_units);
}

#[test]
fn empty_buffer_and_zero_count_yield_empty_vec() {
    assert_eq!(walk_layout_buffer(&[]), Ok(Vec::new()));
    let empty_header = build_layout_buffer(&[]);
    assert_eq!(empty_header.len(), 16);
    assert_eq!(walk_layout_buffer(&empty_header), Ok(Vec::new()));
}

#[test]
fn truncated_header_errors() {
    let buf = build_layout_buffer(std::slice::from_ref(&one_file()));
    assert_eq!(
        walk_layout_buffer(&buf[..10]),
        Err(LayoutWalkError::Truncated {
            what: "QUERY_FILE_LAYOUT_OUTPUT",
            offset: 0,
            need: 16,
            len: 10,
        })
    );
}

#[test]
fn truncated_file_entry_errors() {
    let buf = build_layout_buffer(std::slice::from_ref(&one_file()));
    assert_eq!(
        walk_layout_buffer(&buf[..30]),
        Err(LayoutWalkError::Truncated {
            what: "FILE_LAYOUT_ENTRY",
            offset: 16,
            need: 40,
            len: 30,
        })
    );
}

#[test]
fn truncated_name_payload_errors() {
    let mut buf = build_layout_buffer(std::slice::from_ref(&one_file()));
    // Name payload ("report.pdf" = 20 bytes) starts at 80; cut it short.
    buf.truncate(NAME + 24 + 4);
    assert_eq!(
        walk_layout_buffer(&buf),
        Err(LayoutWalkError::Truncated {
            what: "FILE_LAYOUT_NAME_ENTRY.FileName",
            offset: NAME + 24,
            need: 20,
            len: NAME + 24 + 4,
        })
    );
}

#[test]
fn offset_beyond_buffer_errors() {
    let mut buf = build_layout_buffer(std::slice::from_ref(&one_file()));
    let len = buf.len();
    patch_u32(&mut buf, ENTRY_FIRST_NAME_OFFSET, 50_000);
    assert_eq!(
        walk_layout_buffer(&buf),
        Err(LayoutWalkError::OffsetOutOfBounds {
            what: "FILE_LAYOUT_ENTRY.FirstNameOffset",
            offset: ENTRY + 50_000,
            len,
        })
    );
}

#[test]
fn first_file_offset_beyond_buffer_errors() {
    let mut buf = build_layout_buffer(std::slice::from_ref(&one_file()));
    let len = buf.len();
    patch_u32(&mut buf, 4, 60_000); // QUERY_FILE_LAYOUT_OUTPUT.FirstFileOffset
    assert_eq!(
        walk_layout_buffer(&buf),
        Err(LayoutWalkError::OffsetOutOfBounds {
            what: "QUERY_FILE_LAYOUT_OUTPUT.FirstFileOffset",
            offset: 60_000,
            len,
        })
    );
}

#[test]
fn non_advancing_next_file_offset_is_a_cycle_error() {
    let files = vec![one_file(), one_file()];
    let mut buf = build_layout_buffer(&files);
    // A next-file hop smaller than the fixed entry would re-read bytes of
    // the entry that declared it.
    patch_u32(&mut buf, ENTRY_NEXT_FILE_OFFSET, 8);
    assert_eq!(
        walk_layout_buffer(&buf),
        Err(LayoutWalkError::OffsetCycle {
            what: "FILE_LAYOUT_ENTRY.NextFileOffset",
            offset: ENTRY,
            rel: 8,
            min: 40,
        })
    );
}

#[test]
fn non_advancing_next_name_offset_is_a_cycle_error() {
    let fixture = LayoutFileFixture {
        frn: 2,
        attributes: 0x20,
        names: vec![
            LayoutNameFixture::primary(5, "a"),
            LayoutNameFixture::primary(5, "b"),
        ],
        info: None,
        streams: vec![],
    };
    let mut buf = build_layout_buffer(std::slice::from_ref(&fixture));
    patch_u32(&mut buf, NAME_NEXT_NAME_OFFSET, 4);
    assert_eq!(
        walk_layout_buffer(&buf),
        Err(LayoutWalkError::OffsetCycle {
            what: "FILE_LAYOUT_NAME_ENTRY.NextNameOffset",
            offset: NAME,
            rel: 4,
            min: 24,
        })
    );
}

#[test]
fn odd_name_length_errors() {
    let mut buf = build_layout_buffer(std::slice::from_ref(&one_file()));
    patch_u32(&mut buf, NAME_FILE_NAME_LENGTH, 3);
    assert_eq!(
        walk_layout_buffer(&buf),
        Err(LayoutWalkError::OddUtf16Length {
            what: "FILE_LAYOUT_NAME_ENTRY.FileNameLength",
            offset: NAME,
            len: 3,
        })
    );
}

#[test]
fn implausibly_long_name_length_errors() {
    // A FileNameLength beyond the 510-byte NTFS component limit signals a
    // corrupt buffer; it is rejected before allocating (guards against
    // quadratic retained-memory amplification), not parsed.
    let mut buf = build_layout_buffer(std::slice::from_ref(&one_file()));
    patch_u32(&mut buf, NAME_FILE_NAME_LENGTH, 700);
    assert_eq!(
        walk_layout_buffer(&buf),
        Err(LayoutWalkError::NameTooLong {
            what: "FILE_LAYOUT_NAME_ENTRY.FileName",
            offset: NAME,
            len: 700,
            max: 510,
        })
    );
}

#[test]
fn legacy_zero_extra_info_length_still_yields_mtime() {
    // Pre-RS5: ExtraInfoLength was a Reserved field, always 0, with all
    // fields up to Usn guaranteed accessible.
    let mut buf = build_layout_buffer(std::slice::from_ref(&one_file()));
    patch_u32(&mut buf, ENTRY_EXTRA_INFO_LENGTH, 0);
    let parsed = walk_layout_buffer(&buf).expect("legacy info entry parses");
    assert_eq!(parsed[0].mtime_ft, Some(133_800_000_000_000_000));
}

#[test]
fn declared_short_extra_info_yields_no_mtime() {
    // An RS5+ buffer explicitly declaring fewer bytes than LastWriteTime
    // needs: honor the declaration instead of reading past it.
    let mut buf = build_layout_buffer(std::slice::from_ref(&one_file()));
    patch_u32(&mut buf, ENTRY_EXTRA_INFO_LENGTH, 16);
    let parsed = walk_layout_buffer(&buf).expect("short info entry parses");
    assert_eq!(parsed[0].mtime_ft, None);
}

/// A small generator of test data: the same values in every run.
struct Rng(u64);

impl Rng {
    fn next(&mut self) -> u64 {
        self.0 ^= self.0 << 13;
        self.0 ^= self.0 >> 7;
        self.0 ^= self.0 << 17;
        self.0
    }

    fn below(&mut self, n: u64) -> u64 {
        self.next() % n
    }
}

fn any_file(rng: &mut Rng) -> LayoutFileFixture {
    let mut names = Vec::new();
    for _ in 0..rng.below(4) {
        let mut units = Vec::new();
        for _ in 0..rng.below(8) {
            units.push(rng.below(0x10000) as u16);
        }
        names.push(LayoutNameFixture {
            parent_frn: rng.next(),
            units,
            flags: rng.below(4) as u32,
        });
    }
    let mut streams = Vec::new();
    for _ in 0..rng.below(3) {
        let eof = (rng.next() >> 1) as i64;
        streams.push(match rng.below(3) {
            0 => LayoutStreamFixture::unnamed_data(eof),
            1 => LayoutStreamFixture::unnamed_data_explicit(eof),
            _ => LayoutStreamFixture::named_data("Zone.Identifier", eof),
        });
    }
    LayoutFileFixture {
        frn: rng.next(),
        attributes: [0x20u32, 0x10, 0x2020][rng.below(3) as usize],
        names,
        info: if rng.below(2) == 0 {
            Some(LayoutInfoFixture::with_mtime(rng.next() as i64))
        } else {
            None
        },
        streams,
    }
}

#[test]
fn roundtrip_fixture_build_then_parse() {
    let mut rng = Rng(0x1357_9BDF_0246_8ACE);
    for _ in 0..300 {
        let mut files = Vec::new();
        for _ in 0..rng.below(6) {
            files.push(any_file(&mut rng));
        }
        let buf = build_layout_buffer(&files);
        let parsed = walk_layout_buffer(&buf).expect("fixture buffers always parse");
        let expected: Vec<LayoutFile> = files.iter().map(LayoutFileFixture::expected).collect();
        assert_eq!(parsed, expected);
    }
}

#[test]
fn damaged_buffers_are_refused_or_read_in_bounds() {
    let mut rng = Rng(0x7777_1234_4242_9999);
    let whole = build_layout_buffer(&[one_file(), one_file(), one_file()]);
    for _ in 0..400 {
        let mut buf = whole.clone();
        for _ in 0..1 + rng.below(4) {
            let at = rng.below(buf.len() as u64) as usize;
            buf[at] = rng.below(256) as u8;
        }
        let keep = rng.below(buf.len() as u64 + 1) as usize;
        buf.truncate(keep);
        if let Ok(files) = walk_layout_buffer(&buf) {
            assert!(files.len() <= buf.len());
        }
    }
}

#[test]
fn layout_errors_in_words() {
    assert_eq!(
        LayoutWalkError::Truncated { what: "X", offset: 3, need: 4, len: 5 }.message(),
        "truncated X: need 4 bytes at offset 3, buffer has 5"
    );
    assert_eq!(
        LayoutWalkError::OffsetOutOfBounds { what: "X", offset: 3, len: 5 }.message(),
        "X points out of bounds: offset 3, buffer has 5 bytes"
    );
    assert_eq!(
        LayoutWalkError::OffsetCycle { what: "X", offset: 3, rel: 1, min: 2 }.message(),
        "X at offset 3 does not advance monotonically: relative offset 1 < minimum 2 (cycle guard)"
    );
    assert_eq!(
        LayoutWalkError::OddUtf16Length { what: "X", offset: 3, len: 7 }.message(),
        "X at offset 3 is odd (7 bytes); UTF-16LE lengths must be even"
    );
    assert_eq!(
        LayoutWalkError::NameTooLong { what: "X", offset: 3, len: 700, max: 510 }.message(),
        "X at offset 3 declares 700 bytes, exceeding the NTFS component limit of 510"
    );
}

#[test]
fn the_file_count_is_a_hint() {
    let mut other = one_file();
    other.frn = 0x0001_0000_0000_0044;
    let files = [one_file(), other];
    let mut buf = build_layout_buffer(&files);
    let want = walk_layout_buffer(&buf).expect("sound");
    assert_eq!(want.len(), 2);
    for count in [1u32, 2, 3, u32::MAX] {
        patch_u32(&mut buf, 0, count);
        assert_eq!(walk_layout_buffer(&buf).as_ref(), Ok(&want));
    }
    patch_u32(&mut buf, 0, 0);
    assert_eq!(walk_layout_buffer(&buf), Ok(Vec::new()));
}
