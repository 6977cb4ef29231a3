use goz::types::Frn;
use goz::usn::record::{
    FILE_ATTRIBUTE_DIRECTORY, USN_REASON_BASIC_INFO_CHANGE, USN_REASON_CLOSE,
    USN_REASON_DATA_EXTEND, USN_REASON_DATA_OVERWRITE, USN_REASON_DATA_TRUNCATION,
    USN_REASON_FILE_CREATE, USN_REASON_FILE_DELETE, USN_REASON_HARD_LINK_CHANGE,
    USN_REASON_RENAME_NEW_NAME, USN_REASON_RENAME_OLD_NAME,
};
use goz::usn::{
    ops_for, walk_enum_buffer, walk_journal_buffer, ParsedUsnRecord, SkipCounts, UsnOp, WalkError,
};
use goz::wtf8;

/// Realistic default attribute for plain files.
const FILE_ATTRIBUTE_ARCHIVE: u32 = 0x20;

/// Fills alignment padding inside `RecordLength`. Deliberately
/// nonzero: real buffers contain garbage there, and a parser that reads past
/// `FileNameLength` will visibly corrupt names in tests.
pub const PAD_BYTE: u8 = 0xCC;

/// Logical description of one USN record; rendered to wire bytes by
/// [`record_bytes`] / [`build_enum_buffer`] / [`build_journal_buffer`].
#[derive(Clone, Debug)]
pub struct RecordFixture {
    /// Wire `MajorVersion` to emit: 2 or 3 (builders panic on anything
    /// else; V4/unknown records are hand-built where needed).
    pub version: u16,
    /// 64-bit FRN. For V3 it becomes the low half of the `FILE_ID_128`,
    /// high half zeroed (the NTFS zero-extension invariant).
    pub frn: u64,
    /// 64-bit parent FRN (same V3 treatment).
    pub parent: u64,
    pub usn: i64,
    /// `TimeStamp` (FILETIME).
    pub timestamp: i64,
    pub reason: u32,
    pub attributes: u32,
    /// Name as raw UTF-16 code units (unpaired surrogates permitted).
    pub name_units: Vec<u16>,
}

impl RecordFixture {
    /// A plain file record (V2, archive attribute, reason/usn/timestamp
    /// zeroed).
    pub fn file(frn: u64, parent: u64, name: &str) -> Self {
        Self {
            version: 2,
            frn,
            parent,
            usn: 0,
            timestamp: 0,
            reason: 0,
            attributes: FILE_ATTRIBUTE_ARCHIVE,
            name_units: name.encode_utf16().collect(),
        }
    }

    /// A directory record (V2, directory attribute).
    pub fn dir(frn: u64, parent: u64, name: &str) -> Self {
        Self {
            attributes: FILE_ATTRIBUTE_DIRECTORY,
            ..Self::file(frn, parent, name)
        }
    }

    pub fn with_reason(mut self, reason: u32) -> Self {
        self.reason = reason;
        self
    }

    pub fn with_version(mut self, version: u16) -> Self {
        self.version = version;
        self
    }

    pub fn with_usn(mut self, usn: i64) -> Self {
        self.usn = usn;
        self
    }

    pub fn with_timestamp(mut self, timestamp: i64) -> Self {
        self.timestamp = timestamp;
        self
    }

    pub fn with_attributes(mut self, attributes: u32) -> Self {
        self.attributes = attributes;
        self
    }

    /// Replaces the name with raw UTF-16 code units (for surrogate and
    /// non-string names).
    pub fn with_name_units(mut self, name_units: Vec<u16>) -> Self {
        self.name_units = name_units;
        self
    }
}

/// Renders one fixture to its exact wire bytes: fixed header, UTF-16LE name
/// at `FileNameOffset`, then [`PAD_BYTE`] padding out to `RecordLength`
/// (a multiple of 8, matching real NTFS output).
pub fn record_bytes(fx: &RecordFixture) -> Vec<u8> {
    let (header_len, name_off) = match fx.version {
        2 => (60usize, 60u16),
        3 => (76usize, 76u16),
        other => panic!("RecordFixture supports V2/V3 only, got version {other}"),
    };
    let name_bytes_len = fx.name_units.len() * 2;
    let rec_len = (header_len + name_bytes_len).next_multiple_of(8);

    let mut b = Vec::with_capacity(rec_len);
    b.extend_from_slice(&u32::try_from(rec_len).unwrap().to_le_bytes());
    b.extend_from_slice(&fx.version.to_le_bytes());
    b.extend_from_slice(&0u16.to_le_bytes()); // MinorVersion
    match fx.version {
        2 => {
            b.extend_from_slice(&fx.frn.to_le_bytes());
            b.extend_from_slice(&fx.parent.to_le_bytes());
        }
        3 => {
            // FILE_ID_128: 64-bit FRN in the low 8 bytes, high half zero.
            b.extend_from_slice(&fx.frn.to_le_bytes());
            b.extend_from_slice(&[0u8; 8]);
            b.extend_from_slice(&fx.parent.to_le_bytes());
            b.extend_from_slice(&[0u8; 8]);
        }
        _ => unreachable!(),
    }
    b.extend_from_slice(&fx.usn.to_le_bytes());
    b.extend_from_slice(&fx.timestamp.to_le_bytes());
    b.extend_from_slice(&fx.reason.to_le_bytes());
    b.extend_from_slice(&0u32.to_le_bytes()); // SourceInfo
    b.extend_from_slice(&0u32.to_le_bytes()); // SecurityId
    b.extend_from_slice(&fx.attributes.to_le_bytes());
    b.extend_from_slice(&u16::try_from(name_bytes_len).unwrap().to_le_bytes());
    b.extend_from_slice(&name_off.to_le_bytes());
    for unit in &fx.name_units {
        b.extend_from_slice(&unit.to_le_bytes());
    }
    b.resize(rec_len, PAD_BYTE);
    b
}

/// Builds a full `FSCTL_ENUM_USN_DATA` output buffer: leading next
/// `StartFileReferenceNumber`, then the packed records.
pub fn build_enum_buffer(next_start_frn: u64, recs: &[RecordFixture]) -> Vec<u8> {
    let mut buf = next_start_frn.to_le_bytes().to_vec();
    for fx in recs {
        buf.extend_from_slice(&record_bytes(fx));
    }
    buf
}

/// Builds a full `FSCTL_READ_USN_JOURNAL` output buffer: leading next
/// `StartUsn`, then the packed records.
pub fn build_journal_buffer(next_usn: i64, recs: &[RecordFixture]) -> Vec<u8> {
    let mut buf = next_usn.to_le_bytes().to_vec();
    for fx in recs {
        buf.extend_from_slice(&record_bytes(fx));
    }
    buf
}

/// A plausible 80-byte `USN_RECORD_V4` (extent-range record, no file name)
/// for version-skip tests: common header + two `FILE_ID_128`s + Usn +
/// Reason + SourceInfo + RemainingExtents + NumberOfExtents + ExtentSize +
/// one 16-byte extent.
pub fn build_v4_record_bytes() -> Vec<u8> {
    let mut b = Vec::with_capacity(80);
    b.extend_from_slice(&80u32.to_le_bytes()); // RecordLength
    b.extend_from_slice(&4u16.to_le_bytes()); // MajorVersion
    b.extend_from_slice(&0u16.to_le_bytes()); // MinorVersion
    b.extend_from_slice(&0xAAAAu64.to_le_bytes()); // FRN low
    b.extend_from_slice(&[0u8; 8]); // FRN high
    b.extend_from_slice(&0x5u64.to_le_bytes()); // parent FRN low
    b.extend_from_slice(&[0u8; 8]); // parent FRN high
    b.extend_from_slice(&4096i64.to_le_bytes()); // Usn
    b.extend_from_slice(&USN_REASON_DATA_EXTEND.to_le_bytes()); // Reason
    b.extend_from_slice(&0u32.to_le_bytes()); // SourceInfo
    b.extend_from_slice(&0u32.to_le_bytes()); // RemainingExtents
    b.extend_from_slice(&1u16.to_le_bytes()); // NumberOfExtents
    b.extend_from_slice(&16u16.to_le_bytes()); // ExtentSize
    b.extend_from_slice(&0i64.to_le_bytes()); // Extents[0].Offset
    b.extend_from_slice(&65536i64.to_le_bytes()); // Extents[0].Length
    b
}

#[test]
fn v2_record_bytes_are_byte_exact() {
    let rb = record_bytes(
        &RecordFixture::file(0x11, 0x22, "abc")
            .with_usn(9)
            .with_timestamp(-1)
            .with_reason(0xF00D),
    );
    assert_eq!(rb.len(), 72); // 60 + 6, padded to 72
    assert_eq!(&rb[0..4], &72u32.to_le_bytes()); // RecordLength
    assert_eq!(&rb[4..6], &2u16.to_le_bytes()); // MajorVersion
    assert_eq!(&rb[6..8], &0u16.to_le_bytes()); // MinorVersion
    assert_eq!(&rb[8..16], &0x11u64.to_le_bytes()); // FRN
    assert_eq!(&rb[16..24], &0x22u64.to_le_bytes()); // parent FRN
    assert_eq!(&rb[24..32], &9i64.to_le_bytes()); // Usn
    assert_eq!(&rb[32..40], &(-1i64).to_le_bytes()); // TimeStamp
    assert_eq!(&rb[40..44], &0xF00Du32.to_le_bytes()); // Reason
    assert_eq!(&rb[44..48], &0u32.to_le_bytes()); // SourceInfo
    assert_eq!(&rb[48..52], &0u32.to_le_bytes()); // SecurityId
    assert_eq!(&rb[52..56], &0x20u32.to_le_bytes()); // FileAttributes
    assert_eq!(&rb[56..58], &6u16.to_le_bytes()); // FileNameLength
    assert_eq!(&rb[58..60], &60u16.to_le_bytes()); // FileNameOffset
    assert_eq!(&rb[60..66], b"a\0b\0c\0"); // UTF-16LE name
    assert_eq!(&rb[66..72], &[PAD_BYTE; 6]); // padding
}

#[test]
fn v3_record_bytes_are_byte_exact() {
    let rb = record_bytes(&RecordFixture::dir(0x33, 0x44, "d").with_version(3));
    assert_eq!(rb.len(), 80); // 76 + 2, padded to 80
    assert_eq!(&rb[0..4], &80u32.to_le_bytes());
    assert_eq!(&rb[4..6], &3u16.to_le_bytes());
    assert_eq!(&rb[8..16], &0x33u64.to_le_bytes()); // FRN low
    assert_eq!(&rb[16..24], &[0u8; 8]); // FRN high
    assert_eq!(&rb[24..32], &0x44u64.to_le_bytes()); // parent low
    assert_eq!(&rb[32..40], &[0u8; 8]); // parent high
    assert_eq!(&rb[68..72], &FILE_ATTRIBUTE_DIRECTORY.to_le_bytes()); // attrs
    assert_eq!(&rb[72..74], &2u16.to_le_bytes()); // FileNameLength
    assert_eq!(&rb[74..76], &76u16.to_le_bytes()); // FileNameOffset
    assert_eq!(&rb[76..78], b"d\0");
    assert_eq!(&rb[78..80], &[PAD_BYTE; 2]);
}

#[test]
fn buffers_keep_every_record_8_aligned() {
    let recs = [
        RecordFixture::file(1, 0, "x"),                  // 62 -> 64
        RecordFixture::file(2, 0, "yy").with_version(3), // 80 -> 80
        RecordFixture::file(3, 0, "zzz"),                // 66 -> 72
    ];
    let buf = build_enum_buffer(0, &recs);
    assert_eq!(buf.len(), 8 + 64 + 80 + 72);
    assert_eq!(buf.len() % 8, 0);
}


/// Reason bit not in any of our decision-table sets
/// (`USN_REASON_SECURITY_CHANGE`).
const SECURITY_ONLY: u32 = 0x0000_0800;

fn rec(reason: u32, attributes: u32) -> ParsedUsnRecord {
    ParsedUsnRecord {
        major_version: 2,
        frn: Frn(7),
        parent_frn: Frn(3),
        usn: 100,
        timestamp_ft: 0,
        reason,
        attributes,
        name: b"a.txt".to_vec(),
        name_lossy: false,
    }
}

fn upsert(is_dir: bool) -> UsnOp {
    UsnOp::Upsert {
        frn: Frn(7),
        parent: Frn(3),
        name: b"a.txt".to_vec(),
        name_lossy: false,
        is_dir,
    }
}

/// A create carries no size or mtime, so it must be stat-dirty as well as an
/// upsert. Without the StatDirty a file created and never written keeps an
/// unknown size forever, and the es CSV renders that as a folder.
#[test]
fn create_emits_upsert_and_stat() {
    let r = rec(USN_REASON_FILE_CREATE, 0x20);
    assert_eq!(
        ops_for(&r).as_slice().to_vec(),
        vec![upsert(false), UsnOp::StatDirty { frn: Frn(7) }]
    );
}

/// The regression that motivated the row-5 CREATE bit: a file created and
/// never written emits CREATE (plus CLOSE) and no DATA_* bit will ever
/// follow, so this record is the only chance to learn its size.
#[test]
fn created_but_never_written_file_is_still_stat_dirty() {
    let r = rec(USN_REASON_FILE_CREATE | USN_REASON_CLOSE, 0x20);
    assert!(
        ops_for(&r)
            .as_slice()
            .iter()
            .any(|op| matches!(op, UsnOp::StatDirty { .. })),
        "a create with no DATA_* bit must still schedule a stat, or the size stays unknown"
    );
}

#[test]
fn rename_new_emits_upsert() {
    let r = rec(USN_REASON_RENAME_NEW_NAME, 0x20);
    assert_eq!(ops_for(&r).as_slice().to_vec(), vec![upsert(false)]);
}

#[test]
fn upsert_carries_is_dir_from_attributes() {
    let r = rec(USN_REASON_FILE_CREATE, FILE_ATTRIBUTE_DIRECTORY);
    assert_eq!(
        ops_for(&r).as_slice().to_vec(),
        vec![upsert(true), UsnOp::StatDirty { frn: Frn(7) }]
    );
}

#[test]
fn accumulated_create_data_close_emits_upsert_and_stat() {
    let r = rec(
        USN_REASON_FILE_CREATE | USN_REASON_DATA_EXTEND | USN_REASON_CLOSE,
        0x20,
    );
    assert_eq!(
        ops_for(&r).as_slice().to_vec(),
        vec![upsert(false), UsnOp::StatDirty { frn: Frn(7) }]
    );
}

#[test]
fn rename_old_alone_is_telemetry_only() {
    let r = rec(USN_REASON_RENAME_OLD_NAME, 0x20);
    assert_eq!(
        ops_for(&r).as_slice().to_vec(),
        vec![UsnOp::RenameOldSeen { frn: Frn(7) }]
    );
}

#[test]
fn rename_old_and_new_in_one_record_emits_upsert_only() {
    let r = rec(
        USN_REASON_RENAME_OLD_NAME | USN_REASON_RENAME_NEW_NAME,
        0x20,
    );
    assert_eq!(ops_for(&r).as_slice().to_vec(), vec![upsert(false)]);
}

#[test]
fn delete_wins_over_all_accumulated_bits() {
    let r = rec(
        USN_REASON_FILE_DELETE
            | USN_REASON_FILE_CREATE
            | USN_REASON_RENAME_OLD_NAME
            | USN_REASON_HARD_LINK_CHANGE
            | USN_REASON_DATA_EXTEND
            | USN_REASON_CLOSE,
        0x20,
    );
    assert_eq!(ops_for(&r).as_slice().to_vec(), vec![UsnOp::Delete { frn: Frn(7) }]);
}

#[test]
fn hard_link_change_emits_link_dirty_never_upsert() {
    let r = rec(USN_REASON_HARD_LINK_CHANGE | USN_REASON_CLOSE, 0x20);
    assert_eq!(
        ops_for(&r).as_slice().to_vec(),
        vec![UsnOp::LinkDirty { frn: Frn(7) }]
    );
}

#[test]
fn each_stat_reason_emits_stat_dirty() {
    for reason in [
        USN_REASON_DATA_OVERWRITE,
        USN_REASON_DATA_EXTEND,
        USN_REASON_DATA_TRUNCATION,
        USN_REASON_BASIC_INFO_CHANGE,
    ] {
        let r = rec(reason, 0x20);
        assert_eq!(
            ops_for(&r).as_slice().to_vec(),
            vec![UsnOp::StatDirty { frn: Frn(7) }],
            "reason {reason:#x}"
        );
    }
}

#[test]
fn close_only_emits_nothing() {
    let r = rec(USN_REASON_CLOSE, 0x20);
    assert!(ops_for(&r).as_slice().is_empty());
}

#[test]
fn security_only_emits_nothing() {
    let r = rec(SECURITY_ONLY, 0x20);
    assert!(ops_for(&r).as_slice().is_empty());
}

#[test]
fn unrelated_bits_do_not_mask_matches() {
    // & semantics: extra accumulated bits never turn a match off.
    let r = rec(
        USN_REASON_FILE_CREATE | SECURITY_ONLY | USN_REASON_CLOSE,
        0x20,
    );
    assert_eq!(
        ops_for(&r).as_slice().to_vec(),
        vec![upsert(false), UsnOp::StatDirty { frn: Frn(7) }]
    );
}

#[test]
fn rename_old_plus_hard_link_emits_both() {
    let r = rec(
        USN_REASON_RENAME_OLD_NAME | USN_REASON_HARD_LINK_CHANGE,
        0x20,
    );
    assert_eq!(
        ops_for(&r).as_slice().to_vec(),
        vec![
            UsnOp::RenameOldSeen { frn: Frn(7) },
            UsnOp::LinkDirty { frn: Frn(7) },
        ]
    );
}

#[test]
fn full_accumulation_without_delete_emits_all_applicable_ops() {
    let r = rec(
        USN_REASON_RENAME_NEW_NAME
            | USN_REASON_HARD_LINK_CHANGE
            | USN_REASON_BASIC_INFO_CHANGE
            | USN_REASON_CLOSE,
        0x20,
    );
    assert_eq!(
        ops_for(&r).as_slice().to_vec(),
        vec![
            upsert(false),
            UsnOp::LinkDirty { frn: Frn(7) },
            UsnOp::StatDirty { frn: Frn(7) },
        ]
    );
}


fn units(s: &str) -> Vec<u16> {
    s.encode_utf16().collect()
}

#[test]
fn v2_extracts_every_field() {
    let fx = RecordFixture::file(0x0005_0000_0000_002A, 0x0002_0000_0000_0005, "report.pdf")
        .with_reason(USN_REASON_FILE_CREATE | USN_REASON_CLOSE)
        .with_usn(1234)
        .with_timestamp(133_800_000_000_000_000);
    let buf = build_enum_buffer(0x99, &[fx]);
    let walk = walk_enum_buffer(&buf).unwrap();
    assert_eq!(walk.next_start_frn, 0x99);
    assert_eq!(walk.skipped, SkipCounts::default());
    assert_eq!(walk.records.len(), 1);
    let r = &walk.records[0];
    assert_eq!(r.major_version, 2);
    assert_eq!(r.frn, Frn(0x0005_0000_0000_002A));
    assert_eq!(r.parent_frn, Frn(0x0002_0000_0000_0005));
    assert_eq!(r.usn, 1234);
    assert_eq!(r.timestamp_ft, 133_800_000_000_000_000);
    assert_eq!(r.reason, USN_REASON_FILE_CREATE | USN_REASON_CLOSE);
    assert_eq!(r.name, b"report.pdf");
    assert!(!r.name_lossy);
    assert!(!r.is_dir());
}

#[test]
fn v3_extracts_every_field_and_reports_is_dir() {
    let fx = RecordFixture::dir(0xABCD, 0x5, "photos")
        .with_version(3)
        .with_reason(USN_REASON_RENAME_NEW_NAME)
        .with_usn(-7)
        .with_timestamp(42);
    let buf = build_journal_buffer(5000, &[fx]);
    let walk = walk_journal_buffer(&buf).unwrap();
    assert_eq!(walk.next_usn, 5000);
    assert_eq!(walk.records.len(), 1);
    let r = &walk.records[0];
    assert_eq!(r.major_version, 3);
    assert_eq!(r.frn, Frn(0xABCD));
    assert_eq!(r.parent_frn, Frn(0x5));
    assert_eq!(r.usn, -7);
    assert_eq!(r.timestamp_ft, 42);
    assert_eq!(r.reason, USN_REASON_RENAME_NEW_NAME);
    assert_eq!(r.name, b"photos");
    assert!(r.is_dir());
}

#[test]
fn v3_fixture_high_halves_are_zero_extension() {
    // Structural invariant of NTFS-shaped V3 records: the FILE_ID_128
    // high halves are zero. The fixture builder must uphold it.
    let fx = RecordFixture::file(u64::MAX, u64::MAX - 1, "x").with_version(3);
    let rb = record_bytes(&fx);
    assert_eq!(&rb[16..24], &[0u8; 8], "FRN high half");
    assert_eq!(&rb[32..40], &[0u8; 8], "parent FRN high half");
}

#[test]
fn v3_nonzero_high_half_is_truncated_not_fatal() {
    let fx = RecordFixture::file(0x1111, 0x2222, "hi").with_version(3);
    let mut buf = build_enum_buffer(0, &[fx]);
    // Record starts at 8; FRN high half occupies record bytes 16..24.
    buf[8 + 16] = 0xFF;
    let walk = walk_enum_buffer(&buf).unwrap();
    assert_eq!(walk.records.len(), 1);
    assert_eq!(walk.records[0].frn, Frn(0x1111));
    assert_eq!(walk.records[0].parent_frn, Frn(0x2222));
}

#[test]
fn alignment_padding_between_records_is_honored() {
    // "a" -> V2 unpadded 62 bytes -> RecordLength 64; the next record
    // must be found at the 8-aligned boundary.
    let recs = [
        RecordFixture::file(1, 9, "a"),
        RecordFixture::file(2, 9, "second.txt"),
    ];
    let buf = build_enum_buffer(3, &recs);
    let walk = walk_enum_buffer(&buf).unwrap();
    assert_eq!(walk.records.len(), 2);
    assert_eq!(walk.records[0].name, b"a");
    assert_eq!(walk.records[1].name, b"second.txt");
    assert_eq!(walk.records[1].frn, Frn(2));
}

#[test]
fn unpadded_record_length_is_rounded_up_defensively() {
    // Patch the first record's RecordLength from its padded value (72)
    // to the unpadded 66; the walker must still find record two at the
    // physical 8-aligned boundary.
    let recs = [
        RecordFixture::file(1, 9, "abc"),
        RecordFixture::file(2, 9, "def"),
    ];
    let mut buf = build_enum_buffer(0, &recs);
    assert_eq!(&buf[8..12], &72u32.to_le_bytes());
    buf[8..12].copy_from_slice(&66u32.to_le_bytes());
    let walk = walk_enum_buffer(&buf).unwrap();
    assert_eq!(walk.records.len(), 2);
    assert_eq!(walk.records[1].name, b"def");
}

#[test]
fn file_name_length_is_bytes_not_chars() {
    let rb = record_bytes(&RecordFixture::file(1, 2, "abc"));
    // FileNameLength at V2 offset 56: 3 WCHARs = 6 bytes.
    assert_eq!(&rb[56..58], &6u16.to_le_bytes());
    // FileNameOffset at 58 points at the header end.
    assert_eq!(&rb[58..60], &60u16.to_le_bytes());
}

#[test]
fn padding_garbage_after_name_never_leaks() {
    // "abc" -> unpadded 66, padded 72: six PAD_BYTEs inside RecordLength.
    let fx = RecordFixture::file(1, 2, "abc");
    let rb = record_bytes(&fx);
    assert_eq!(&rb[66..72], &[PAD_BYTE; 6]);
    let buf = build_enum_buffer(0, &[fx]);
    let walk = walk_enum_buffer(&buf).unwrap();
    assert_eq!(walk.records[0].name, b"abc");
    assert_eq!(walk.records[0].name.len(), 3);
}

#[test]
fn unpaired_surrogate_name_round_trips_via_wtf8() {
    let name_units = vec![0x0061, 0xD800, 0x0062]; // "a<lone high>b"
    for version in [2u16, 3] {
        let fx = RecordFixture::file(1, 2, "")
            .with_name_units(name_units.clone())
            .with_version(version);
        let buf = build_enum_buffer(0, &[fx]);
        let walk = walk_enum_buffer(&buf).unwrap();
        let r = &walk.records[0];
        assert!(r.name_lossy);
        assert_eq!(wtf8::to_utf16(&r.name), name_units);
    }
}

#[test]
fn max_component_name_255_wchars() {
    let name_units = vec![0x0078u16; 255];
    let fx = RecordFixture::file(1, 2, "").with_name_units(name_units.clone());
    let buf = build_enum_buffer(0, &[fx]);
    let walk = walk_enum_buffer(&buf).unwrap();
    let r = &walk.records[0];
    assert_eq!(r.name.len(), 255);
    assert_eq!(wtf8::to_utf16(&r.name), name_units);
    assert!(!r.name_lossy);
}

#[test]
fn v4_records_are_skipped_and_counted() {
    let mut buf = 7u64.to_le_bytes().to_vec();
    buf.extend_from_slice(&build_v4_record_bytes());
    buf.extend_from_slice(&record_bytes(&RecordFixture::file(1, 2, "after.txt")));
    let walk = walk_enum_buffer(&buf).unwrap();
    assert_eq!(walk.next_start_frn, 7);
    assert_eq!(walk.records.len(), 1);
    assert_eq!(walk.records[0].name, b"after.txt");
    assert_eq!(
        walk.skipped,
        SkipCounts {
            v4: 1,
            unknown_version: 0
        }
    );
}

#[test]
fn unknown_major_version_is_skipped_and_counted() {
    let mut unk = Vec::new();
    unk.extend_from_slice(&24u32.to_le_bytes()); // RecordLength
    unk.extend_from_slice(&9u16.to_le_bytes()); // MajorVersion 9
    unk.extend_from_slice(&0u16.to_le_bytes());
    unk.extend_from_slice(&[0xEE; 16]); // opaque payload
    let mut buf = 0u64.to_le_bytes().to_vec();
    buf.extend_from_slice(&unk);
    buf.extend_from_slice(&record_bytes(&RecordFixture::file(1, 2, "ok")));
    let walk = walk_enum_buffer(&buf).unwrap();
    assert_eq!(walk.records.len(), 1);
    assert_eq!(
        walk.skipped,
        SkipCounts {
            v4: 0,
            unknown_version: 1
        }
    );
}

#[test]
fn zero_record_length_is_an_error() {
    let mut buf = 0u64.to_le_bytes().to_vec();
    buf.extend_from_slice(&[0u8; 16]);
    assert_eq!(
        walk_enum_buffer(&buf).unwrap_err(),
        WalkError::ZeroRecordLength { offset: 8 }
    );
}

#[test]
fn record_overrun_is_an_error() {
    let buf = build_enum_buffer(0, &[RecordFixture::file(1, 2, "abcd")]);
    // Record claims 72 bytes; hand it a buffer 8 bytes short.
    let truncated = &buf[..buf.len() - 8];
    assert_eq!(
        walk_enum_buffer(truncated).unwrap_err(),
        WalkError::RecordOverrun { offset: 8 }
    );
}

#[test]
fn truncated_v2_header_is_an_error() {
    let mut rec = Vec::new();
    rec.extend_from_slice(&16u32.to_le_bytes()); // RecordLength 16 < 60
    rec.extend_from_slice(&2u16.to_le_bytes());
    rec.extend_from_slice(&0u16.to_le_bytes());
    rec.extend_from_slice(&[0u8; 8]);
    let mut buf = 0u64.to_le_bytes().to_vec();
    buf.extend_from_slice(&rec);
    assert_eq!(
        walk_enum_buffer(&buf).unwrap_err(),
        WalkError::TruncatedHeader { offset: 8 }
    );
}

#[test]
fn truncated_v3_header_is_an_error() {
    // 64 bytes is a valid V2 size but too short for a V3 header (76).
    let mut rec = Vec::new();
    rec.extend_from_slice(&64u32.to_le_bytes());
    rec.extend_from_slice(&3u16.to_le_bytes());
    rec.extend_from_slice(&0u16.to_le_bytes());
    rec.extend_from_slice(&[0u8; 56]);
    let mut buf = 0u64.to_le_bytes().to_vec();
    buf.extend_from_slice(&rec);
    assert_eq!(
        walk_enum_buffer(&buf).unwrap_err(),
        WalkError::TruncatedHeader { offset: 8 }
    );
}

#[test]
fn name_span_outside_record_is_an_error() {
    let mut buf = build_enum_buffer(0, &[RecordFixture::file(1, 2, "abc")]);
    // FileNameLength lives at record offset 56 -> buffer offset 64.
    buf[64..66].copy_from_slice(&512u16.to_le_bytes());
    assert_eq!(
        walk_enum_buffer(&buf).unwrap_err(),
        WalkError::MalformedName { offset: 8 }
    );
}

#[test]
fn odd_name_length_is_an_error() {
    let mut buf = build_enum_buffer(0, &[RecordFixture::file(1, 2, "abc")]);
    buf[64..66].copy_from_slice(&5u16.to_le_bytes());
    assert_eq!(
        walk_enum_buffer(&buf).unwrap_err(),
        WalkError::MalformedName { offset: 8 }
    );
}

#[test]
fn name_offset_into_fixed_header_is_an_error() {
    let mut buf = build_enum_buffer(0, &[RecordFixture::file(1, 2, "abc")]);
    // FileNameOffset lives at record offset 58 -> buffer offset 66. Point it
    // at byte 24 (the Usn field), inside the fixed V2 header: reconstructing
    // a "name" from header bytes must be rejected, not silently stored under
    // a valid FRN.
    buf[66..68].copy_from_slice(&24u16.to_le_bytes());
    assert_eq!(
        walk_enum_buffer(&buf).unwrap_err(),
        WalkError::MalformedName { offset: 8 }
    );
}

#[test]
fn leading_values_are_extracted_with_correct_signedness() {
    let e = walk_enum_buffer(&build_enum_buffer(u64::MAX, &[])).unwrap();
    assert_eq!(e.next_start_frn, u64::MAX);
    let j = walk_journal_buffer(&build_journal_buffer(-42, &[])).unwrap();
    assert_eq!(j.next_usn, -42);
}

#[test]
fn empty_buffer_of_only_the_leading_value_yields_no_records() {
    let buf = build_enum_buffer(0xF00, &[]);
    assert_eq!(buf.len(), 8);
    let walk = walk_enum_buffer(&buf).unwrap();
    assert_eq!(walk.next_start_frn, 0xF00);
    assert!(walk.records.is_empty());
    assert_eq!(walk.skipped, SkipCounts::default());
}

#[test]
fn buffer_shorter_than_leading_value_is_an_error() {
    assert_eq!(
        walk_enum_buffer(&[]).unwrap_err(),
        WalkError::TruncatedHeader { offset: 0 }
    );
    assert_eq!(
        walk_journal_buffer(&[1, 2, 3]).unwrap_err(),
        WalkError::TruncatedHeader { offset: 0 }
    );
}

#[test]
fn sub_8_byte_tail_after_last_record_is_normal_end() {
    let mut buf = build_enum_buffer(0, &[RecordFixture::file(1, 2, "tail.txt")]);
    buf.extend_from_slice(&[0xFF; 4]);
    let walk = walk_enum_buffer(&buf).unwrap();
    assert_eq!(walk.records.len(), 1);
}

#[test]
fn multi_record_buffer_walks_in_order_across_versions() {
    let recs = [
        RecordFixture::file(1, 9, "one"),
        RecordFixture::dir(2, 9, "two").with_version(3),
        RecordFixture::file(3, 9, "three"),
    ];
    let buf = build_journal_buffer(777, &recs);
    let walk = walk_journal_buffer(&buf).unwrap();
    assert_eq!(walk.next_usn, 777);
    let names: Vec<&[u8]> = walk.records.iter().map(|r| r.name.as_slice()).collect();
    assert_eq!(names, [b"one".as_slice(), b"two", b"three"]);
    assert_eq!(walk.records[1].major_version, 3);
    assert!(walk.records[1].is_dir());
}

#[test]
fn utf16_units_are_decoded_little_endian() {
    // U+0101 (LATIN SMALL LETTER A WITH MACRON) = LE bytes 01 01; make
    // sure a multi-byte unit decodes as one unit, not per-byte.
    let fx = RecordFixture::file(1, 2, "").with_name_units(vec![0x0101]);
    let buf = build_enum_buffer(0, &[fx]);
    let walk = walk_enum_buffer(&buf).unwrap();
    assert_eq!(wtf8::to_utf16(&walk.records[0].name), units("ā"));
}

/// A small generator of test data: the same values in every run.
struct Rng(u64);

impl Rng {
    fn next(&mut self) -> u64 {
        self.0 ^= self.0 << 13;
        self.0 ^= self.0 >> 7;
        self.0 ^= self.0 << 17;
        self.0
    }

    fn below(&mut self, n: u64) -> u64 {
        self.next() % n
    }
}

fn any_record(rng: &mut Rng) -> RecordFixture {
    let mut name_units = Vec::new();
    for _ in 0..1 + rng.below(255) {
        name_units.push(rng.below(0x10000) as u16);
    }
    RecordFixture {
        version: 2,
        frn: rng.next(),
        parent: rng.next(),
        usn: rng.next() as i64,
        timestamp: rng.next() as i64,
        reason: rng.next() as u32,
        attributes: rng.next() as u32,
        name_units,
    }
}

#[test]
fn arbitrary_records_round_trip_v2_and_v3() {
    let mut rng = Rng(0x0F0F_1E1E_2D2D_3C3C);
    for _ in 0..60 {
        let lead = rng.next();
        let mut recs = Vec::new();
        for _ in 0..1 + rng.below(5) {
            recs.push(any_record(&mut rng));
        }
        for version in [2u16, 3] {
            let fixed: Vec<RecordFixture> =
                recs.iter().map(|f| f.clone().with_version(version)).collect();
            let buf = build_enum_buffer(lead, &fixed);
            let walk = walk_enum_buffer(&buf).expect("fixture buffers must walk");
            assert_eq!(walk.next_start_frn, lead);
            assert_eq!(walk.records.len(), fixed.len());
            assert_eq!(walk.skipped, SkipCounts::default());
            for (r, f) in walk.records.iter().zip(&fixed) {
                assert_eq!(r.major_version, version);
                assert_eq!(r.frn, Frn(f.frn));
                assert_eq!(r.parent_frn, Frn(f.parent));
                assert_eq!(r.usn, f.usn);
                assert_eq!(r.timestamp_ft, f.timestamp);
                assert_eq!(r.reason, f.reason);
                assert_eq!(r.attributes, f.attributes);
                assert_eq!(wtf8::to_utf16(&r.name), f.name_units.clone());
                let mut expected = Vec::new();
                let lossy = wtf8::from_utf16(&f.name_units, &mut expected);
                assert_eq!(&r.name, &expected);
                assert_eq!(r.name_lossy, lossy);
            }
        }
    }
}

#[test]
fn journal_walk_matches_enum_walk_on_the_same_records() {
    let mut rng = Rng(0x5A5A_6B6B_7C7C_8D8D);
    for _ in 0..40 {
        let lead = rng.next() as i64;
        let mut recs = Vec::new();
        for _ in 0..1 + rng.below(3) {
            recs.push(any_record(&mut rng));
        }
        let buf = build_journal_buffer(lead, &recs);
        let walk = walk_journal_buffer(&buf).expect("fixture buffers must walk");
        assert_eq!(walk.next_usn, lead);
        let listed = walk_enum_buffer(&buf).expect("fixture buffers must walk");
        assert_eq!(listed.records, walk.records);
    }
}

#[test]
fn walk_errors_in_words() {
    assert_eq!(
        WalkError::ZeroRecordLength { offset: 8 }.message(),
        "USN record at offset 8 has RecordLength == 0 (corrupt buffer)"
    );
    assert_eq!(
        WalkError::RecordOverrun { offset: 80 }.message(),
        "USN record at offset 80 overruns the buffer end"
    );
    assert_eq!(
        WalkError::TruncatedHeader { offset: 0 }.message(),
        "USN record at offset 0 is too short for its version's fixed header"
    );
    assert_eq!(
        WalkError::MalformedName { offset: 16 }.message(),
        "USN record at offset 16 has a malformed file-name span"
    );
}

#[test]
fn records_of_all_versions_read_back_in_order() {
    let recs = [
        RecordFixture::file(1, 9, "one").with_usn(5).with_timestamp(-7),
        RecordFixture::dir(2, 9, "two").with_version(3),
    ];
    let mut buf = build_journal_buffer(-3, &recs[..1]);
    buf.extend_from_slice(&build_v4_record_bytes());
    buf.extend_from_slice(&8u32.to_le_bytes()); // RecordLength
    buf.extend_from_slice(&9u16.to_le_bytes()); // MajorVersion
    buf.extend_from_slice(&0u16.to_le_bytes()); // MinorVersion
    buf.extend_from_slice(&record_bytes(&recs[1]));
    let walk = walk_journal_buffer(&buf).expect("sound");
    assert_eq!(walk.next_usn, -3);
    assert_eq!(walk.records.len(), 2);
    assert_eq!((walk.records[0].usn, walk.records[0].timestamp_ft), (5, -7));
    assert_eq!(walk.records[0].name, b"one");
    assert_eq!((walk.records[1].frn, walk.records[1].parent_frn), (Frn(2), Frn(9)));
    assert_eq!(walk.records[1].name, b"two");
    assert_eq!((walk.skipped.v4, walk.skipped.unknown_version), (1, 1));
    assert_eq!(walk_enum_buffer(&buf).expect("sound").records, walk.records);
}
