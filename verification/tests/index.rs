use goz::index::{
    Anomaly, FrnMap, LinkTarget, PathStatus, VolumeIndex, WtfName, NTFS_ROOT_FRN,
};
use goz::layout::{
    LayoutFile, LayoutName, FILE_LAYOUT_NAME_ENTRY_DOS, FILE_LAYOUT_NAME_ENTRY_PRIMARY,
};
use goz::types::{Frn, NIL};
use goz::usn::record::{
    FILE_ATTRIBUTE_DIRECTORY, USN_REASON_FILE_CREATE, USN_REASON_FILE_DELETE,
    USN_REASON_RENAME_NEW_NAME,
};
use goz::usn::ParsedUsnRecord;
use goz::wtf8;
use std::collections::{BTreeSet, HashMap, HashSet};

// -- record/index construction helpers -----------------------------------

/// FRN with sequence 1 for record number `rec`.
fn frn(rec: u64) -> Frn {
    Frn(rec | (1u64 << 48))
}
/// FRN with an explicit sequence, for slot-reuse tests.
fn frn_seq(rec: u64, seq: u16) -> Frn {
    Frn(rec | ((seq as u64) << 48))
}

fn root_frn() -> Frn {
    Frn(NTFS_ROOT_FRN)
}

fn record(frn: Frn, parent: Frn, name: &str, is_dir: bool, reason: u32) -> ParsedUsnRecord {
    ParsedUsnRecord {
        major_version: 2,
        frn,
        parent_frn: parent,
        usn: 0,
        timestamp_ft: 0,
        reason,
        attributes: if is_dir { FILE_ATTRIBUTE_DIRECTORY } else { 0 },
        name: name.as_bytes().to_vec(),
        name_lossy: false,
    }
}

fn create(frn: Frn, parent: Frn, name: &str, is_dir: bool) -> ParsedUsnRecord {
    record(frn, parent, name, is_dir, USN_REASON_FILE_CREATE)
}
fn rename(frn: Frn, new_parent: Frn, new_name: &str, is_dir: bool) -> ParsedUsnRecord {
    record(
        frn,
        new_parent,
        new_name,
        is_dir,
        USN_REASON_RENAME_NEW_NAME,
    )
}
fn delete(frn: Frn) -> ParsedUsnRecord {
    record(frn, root_frn(), "", false, USN_REASON_FILE_DELETE)
}

fn new_index() -> VolumeIndex {
    VolumeIndex::new(root_frn(), FrnMap::sparse())
}

/// Builds an index from ENUM records (bootstrap ingest) in the given order.
fn index_from_enum(recs: &[ParsedUsnRecord]) -> VolumeIndex {
    let mut idx = new_index();
    for r in recs {
        idx.insert_enum(r);
    }
    idx
}

fn path_set(idx: &VolumeIndex) -> BTreeSet<String> {
    idx.collect_real_paths().into_iter().collect()
}

fn path_of_frn(idx: &VolumeIndex, f: Frn) -> Option<String> {
    let head = idx.head_of(f)?;
    let mut buf = Vec::new();
    match idx.path_of(head, &mut buf) {
        PathStatus::Whole => Some(wtf8::to_string_lossy(&buf)),
        _ => None,
    }
}

/// Maps a model FRN to the real root FRN or a sequence-1 FRN.
fn frn_or_root(f: u64) -> Frn {
    if f == root_frn().0 {
        root_frn()
    } else {
        frn(f)
    }
}

// -- targeted unit tests -------------------------------------------------

#[test]
fn builds_simple_tree_and_reconstructs_paths() {
    let idx = index_from_enum(&[
        create(frn(100), root_frn(), "docs", true),
        create(frn(101), frn(100), "sub", true),
        create(frn(102), frn(101), "report.pdf", false),
        create(frn(103), root_frn(), "top.txt", false),
    ]);
    assert_eq!(
        path_set(&idx),
        BTreeSet::from([
            "docs".to_string(),
            "docs\\sub".to_string(),
            "docs\\sub\\report.pdf".to_string(),
            "top.txt".to_string(),
        ])
    );
}

#[test]
fn directory_rename_touches_exactly_one_entry() {
    // Build a wide subtree under TOP, then rename TOP and assert one write.
    let mut recs = vec![create(frn(100), root_frn(), "TOP", true)];
    const N: u64 = 3000;
    for i in 0..N {
        recs.push(create(frn(200 + i), frn(100), &format!("f{i}.txt"), false));
    }
    let mut idx = index_from_enum(&recs);
    idx.take_write_count(); // reset the counter after bootstrap

    let outcome = idx.apply_batch(&[rename(frn(100), root_frn(), "RENAMED", true)]);
    assert!(outcome.needs_link_reconcile.is_empty());
    assert_eq!(
        idx.take_write_count(),
        1,
        "renaming a directory must touch exactly its own entry"
    );

    // Every descendant's path now reflects the move, computed lazily.
    assert_eq!(
        path_of_frn(&idx, frn(200)).as_deref(),
        Some("RENAMED\\f0.txt")
    );
    assert_eq!(
        path_of_frn(&idx, frn(200 + N - 1)).as_deref(),
        Some(&*format!("RENAMED\\f{}.txt", N - 1))
    );
}

#[test]
fn orphan_gets_placeholder_then_reparents_when_parent_arrives() {
    let mut idx = new_index();
    // Child before its parent: parent frn 100 is unknown.
    idx.insert_enum(&create(frn(101), frn(100), "child.txt", false));
    assert_eq!(idx.stats().placeholders_created, 1);
    // The child is stranded under lost+found, so it is not a "real" path yet.
    assert!(path_of_frn(&idx, frn(101)).is_none());

    // Parent's own record arrives: the placeholder is filled in place.
    idx.insert_enum(&create(frn(100), root_frn(), "parent", true));
    assert_eq!(
        path_of_frn(&idx, frn(101)).as_deref(),
        Some("parent\\child.txt")
    );
    assert_eq!(
        path_set(&idx),
        BTreeSet::from(["parent".to_string(), "parent\\child.txt".to_string()])
    );
}

#[test]
fn slot_reuse_never_aliases() {
    // Record 100 first hosts FRN(seq 3); then it is reused by FRN(seq 4).
    let mut idx = new_index();
    idx.insert_enum(&create(frn_seq(100, 3), root_frn(), "old.txt", false));
    assert_eq!(
        path_of_frn(&idx, frn_seq(100, 3)).as_deref(),
        Some("old.txt")
    );

    // Missed delete of the old file; the new tenant arrives on the same record.
    idx.apply_batch(&[create(frn_seq(100, 4), root_frn(), "new.txt", false)]);
    assert_eq!(idx.stats().stale_slots, 1);
    assert_eq!(path_of_frn(&idx, frn_seq(100, 3)), None);
    assert_eq!(
        path_of_frn(&idx, frn_seq(100, 4)).as_deref(),
        Some("new.txt")
    );
    assert_eq!(path_set(&idx), BTreeSet::from(["new.txt".to_string()]));
}

/// The same reuse, reached through the PARENT side.
///
/// `upsert_link` reclaims a re-tenanted record; `resolve_or_placeholder_parent`
/// must too. It used to just overwrite the `by_frn` entry, which left the old
/// directory's whole subtree live in the entry table but unreachable from the
/// map: ghost files that kept matching queries forever and whose slots could
/// never be reclaimed. Nothing else covers this path, because the child-side
/// test above never resolves a stale record as a parent.
#[test]
fn parent_slot_reuse_never_leaks_the_stale_chain() {
    let mut idx = new_index();
    // Record 100 hosts a directory that holds a file.
    idx.insert_enum(&create(frn_seq(100, 3), root_frn(), "olddir", true));
    idx.insert_enum(&create(frn(200), frn_seq(100, 3), "ghost.txt", false));
    assert_eq!(
        path_of_frn(&idx, frn(200)).as_deref(),
        Some(r"olddir\ghost.txt")
    );

    // The delete is missed and NTFS re-tenants record 100. The new file arrives
    // naming the reused record as its PARENT, so the only path that sees the
    // stale slot is the parent resolver.
    idx.apply_batch(&[create(frn(201), frn_seq(100, 4), "new.txt", false)]);

    assert_eq!(
        idx.stats().stale_slots,
        1,
        "the parent resolver must report the reuse, exactly as upsert_link does"
    );
    assert_eq!(
        path_of_frn(&idx, frn(200)),
        None,
        "the stale chain must be tombstoned, not left searchable"
    );
    assert!(
        !path_set(&idx).iter().any(|p| p.contains("ghost.txt")),
        "ghost.txt outlived its directory: {:?}",
        path_set(&idx)
    );
}

#[test]
fn double_apply_equals_single_apply() {
    let mut once = index_from_enum(&[create(frn(100), root_frn(), "dir", true)]);
    let batch = vec![
        create(frn(101), frn(100), "a.txt", false),
        rename(frn(101), frn(100), "b.txt", false),
        create(frn(102), root_frn(), "c.txt", false),
        delete(frn(102)),
    ];
    let mut twice = index_from_enum(&[create(frn(100), root_frn(), "dir", true)]);

    once.apply_batch(&batch);
    twice.apply_batch(&batch);
    twice.apply_batch(&batch); // idempotent replay

    assert_eq!(path_set(&once), path_set(&twice));
    assert_eq!(
        path_set(&once),
        BTreeSet::from(["dir".to_string(), "dir\\b.txt".to_string()])
    );
}

#[test]
fn delete_of_unknown_is_counted_not_fatal() {
    let mut idx = new_index();
    let outcome = idx.apply_batch(&[delete(frn(999))]);
    assert_eq!(idx.stats().delete_of_unknown, 1);
    assert_eq!(
        outcome.anomalies,
        vec![Anomaly::DeleteOfUnknown { frn: frn(999) }]
    );
}

#[test]
fn created_and_deleted_in_same_batch_nets_to_nothing() {
    let mut idx = index_from_enum(&[create(frn(100), root_frn(), "dir", true)]);
    idx.apply_batch(&[
        create(frn(101), frn(100), "temp.tmp", false),
        delete(frn(101)),
    ]);
    assert_eq!(path_set(&idx), BTreeSet::from(["dir".to_string()]));
}

// -- hard links ----------------------------------------------------------

/// One hard-link name in a fixture file.
#[derive(Clone, Debug)]
pub struct LayoutNameFixture {
    /// FRN of the containing directory.
    pub parent_frn: u64,
    /// Raw UTF-16 code units of the name (may contain unpaired surrogates).
    pub units: Vec<u16>,
    /// `FILE_LAYOUT_NAME_ENTRY.Flags` (PRIMARY / DOS bits).
    pub flags: u32,
}

impl LayoutNameFixture {
    /// A normal long name (PRIMARY flag set).
    pub fn primary(parent_frn: u64, name: &str) -> Self {
        Self {
            parent_frn,
            units: name.encode_utf16().collect(),
            flags: FILE_LAYOUT_NAME_ENTRY_PRIMARY,
        }
    }

    /// An 8.3 DOS-only alias (DOS flag only).
    pub fn dos_only(parent_frn: u64, name: &str) -> Self {
        Self {
            parent_frn,
            units: name.encode_utf16().collect(),
            flags: FILE_LAYOUT_NAME_ENTRY_DOS,
        }
    }

    fn dos_only_flag(&self) -> bool {
        self.flags & FILE_LAYOUT_NAME_ENTRY_DOS != 0
            && self.flags & FILE_LAYOUT_NAME_ENTRY_PRIMARY == 0
    }

    fn expected(&self) -> LayoutName {
        let mut name = Vec::new();
        let name_lossy = wtf8::from_utf16(&self.units, &mut name);
        LayoutName {
            parent_frn: Frn(self.parent_frn),
            name,
            name_lossy,
            dos_only: self.dos_only_flag(),
        }
    }
}

/// Extra-info entry carrying the last-write time.
#[derive(Clone, Debug)]
pub struct LayoutInfoFixture {
    /// `LastWriteTime` as a Windows FILETIME.
    pub mtime: i64,
}

impl LayoutInfoFixture {
    pub fn with_mtime(mtime: i64) -> Self {
        Self { mtime }
    }
}

/// One `STREAM_LAYOUT_ENTRY` in a fixture file.
#[derive(Clone, Debug)]
pub struct LayoutStreamFixture {
    /// UTF-16 code units of the stream identifier (empty = the unnamed `$DATA`
    /// stream's empty-identifier form).
    pub identifier_units: Vec<u16>,
    /// Whether this stream is the unnamed `$DATA` stream (drives the expected
    /// size). Kept in lockstep with the identifier the constructor writes.
    pub is_unnamed_data: bool,
    /// `EndOfFile` (logical size).
    pub eof: i64,
}

impl LayoutStreamFixture {
    /// The unnamed `$DATA` stream in NTFS's empty-identifier form.
    pub fn unnamed_data(eof: i64) -> Self {
        Self {
            identifier_units: Vec::new(),
            is_unnamed_data: true,
            eof,
        }
    }

    /// The unnamed `$DATA` stream spelled explicitly as `::$DATA`.
    pub fn unnamed_data_explicit(eof: i64) -> Self {
        Self {
            identifier_units: "::$DATA".encode_utf16().collect(),
            is_unnamed_data: true,
            eof,
        }
    }

    /// A named alternate data stream (e.g. `Zone.Identifier`), which must NOT
    /// be treated as the file's size.
    pub fn named_data(name: &str, eof: i64) -> Self {
        let identifier = format!(":{name}:$DATA");
        Self {
            identifier_units: identifier.encode_utf16().collect(),
            is_unnamed_data: false,
            eof,
        }
    }
}

/// A complete fixture file: the `FILE_LAYOUT_ENTRY` fields plus its satellite
/// chains.
#[derive(Clone, Debug)]
pub struct LayoutFileFixture {
    /// NTFS file reference number.
    pub frn: u64,
    /// `FILE_ATTRIBUTE_*` bits (0x10 = directory).
    pub attributes: u32,
    /// Hard-link names, in chain order.
    pub names: Vec<LayoutNameFixture>,
    /// Optional extra-info entry (timestamps).
    pub info: Option<LayoutInfoFixture>,
    /// Stream entries, in chain order.
    pub streams: Vec<LayoutStreamFixture>,
}

impl LayoutFileFixture {
    /// The [`LayoutFile`] the parser must produce for this fixture, the
    /// oracle every round-trip test compares against.
    pub fn expected(&self) -> LayoutFile {
        let is_dir = self.attributes & 0x10 != 0;
        let names = self.names.iter().map(LayoutNameFixture::expected).collect();
        let mtime_ft = self.info.as_ref().map(|i| i.mtime);
        let size = if is_dir {
            None
        } else {
            self.streams
                .iter()
                .find(|s| s.is_unnamed_data)
                .map(|s| s.eof.max(0) as u64)
        };
        LayoutFile {
            frn: Frn(self.frn),
            attributes: self.attributes,
            size,
            mtime_ft,
            names,
        }
    }
}

fn enrich_links(idx: &mut VolumeIndex, fixture: &LayoutFileFixture) {
    let file: LayoutFile = fixture.expected();
    idx.enrich(&file);
}

#[test]
fn enrich_builds_hard_link_chain_findable_under_every_name() {
    // Two dirs and a file that FILE_LAYOUT reports as hard-linked under both.
    let mut idx = index_from_enum(&[
        create(frn(10), root_frn(), "dirA", true),
        create(frn(11), root_frn(), "dirB", true),
        create(frn(100), frn(10), "link1.bin", false),
    ]);
    enrich_links(
        &mut idx,
        &LayoutFileFixture {
            frn: frn(100).0,
            attributes: 0x20,
            names: vec![
                LayoutNameFixture::primary(frn(10).0, "link1.bin"),
                LayoutNameFixture {
                    parent_frn: frn(11).0,
                    units: "link2.bin".encode_utf16().collect(),
                    flags: 0,
                },
            ],
            info: None,
            streams: vec![LayoutStreamFixture::unnamed_data(4096)],
        },
    );

    assert_eq!(
        path_set(&idx),
        BTreeSet::from([
            "dirA".to_string(),
            "dirB".to_string(),
            "dirA\\link1.bin".to_string(),
            "dirB\\link2.bin".to_string(),
        ])
    );
    // Size enrichment reaches EVERY link of the file, not just the head: a
    // query may return any name, and all links describe the same bytes.
    let mut buf = Vec::new();
    for f in [100u64] {
        let head = idx.head_of(frn(f)).unwrap();
        let mut cur = head;
        let mut link_count = 0;
        while cur != NIL {
            assert_eq!(
                idx.entry(cur).size(),
                Some(4096),
                "every hard-link entry must carry the file's size"
            );
            link_count += 1;
            buf.clear();
            let _ = idx.path_of(cur, &mut buf);
            cur = idx.entry(cur).next_link();
        }
        assert_eq!(link_count, 2, "both links present");
    }
}

#[test]
fn file_delete_removes_the_whole_link_chain() {
    let mut idx = index_from_enum(&[
        create(frn(10), root_frn(), "dirA", true),
        create(frn(11), root_frn(), "dirB", true),
        create(frn(100), frn(10), "l1", false),
    ]);
    enrich_links(
        &mut idx,
        &LayoutFileFixture {
            frn: frn(100).0,
            attributes: 0x20,
            names: vec![
                LayoutNameFixture::primary(frn(10).0, "l1"),
                LayoutNameFixture {
                    parent_frn: frn(11).0,
                    units: "l2".encode_utf16().collect(),
                    flags: 0,
                },
            ],
            info: None,
            streams: vec![],
        },
    );
    assert_eq!(idx.collect_real_paths().len(), 4); // 2 dirs + 2 links

    // FILE_DELETE = the file record died: every link disappears.
    idx.apply_batch(&[delete(frn(100))]);
    assert_eq!(
        path_set(&idx),
        BTreeSet::from(["dirA".to_string(), "dirB".to_string()])
    );
}

#[test]
fn reconcile_links_adds_and_removes_individual_links() {
    let mut idx = index_from_enum(&[
        create(frn(10), root_frn(), "dirA", true),
        create(frn(11), root_frn(), "dirB", true),
        create(frn(100), frn(10), "only", false),
    ]);
    let a = idx.head_of(frn(10)).unwrap();
    let b = idx.head_of(frn(11)).unwrap();

    // A second link appears in dirB.
    idx.reconcile_links(
        frn(100),
        &[
            LinkTarget {
                parent: a,
                name: WtfName::new(b"only".to_vec(), false),
            },
            LinkTarget {
                parent: b,
                name: WtfName::new(b"second".to_vec(), false),
            },
        ],
    );
    assert_eq!(
        path_set(&idx),
        BTreeSet::from([
            "dirA".to_string(),
            "dirB".to_string(),
            "dirA\\only".to_string(),
            "dirB\\second".to_string(),
        ])
    );

    // The dirB link is removed again.
    idx.reconcile_links(
        frn(100),
        &[LinkTarget {
            parent: a,
            name: WtfName::new(b"only".to_vec(), false),
        }],
    );
    assert_eq!(
        path_set(&idx),
        BTreeSet::from([
            "dirA".to_string(),
            "dirB".to_string(),
            "dirA\\only".to_string(),
        ])
    );
}

#[test]
fn lone_surrogate_names_round_trip_through_the_index() {
    let mut idx = new_index();
    let mut name = Vec::new();
    let lossy = wtf8::from_utf16(&[0x0061, 0xD800, 0x0062], &mut name);
    assert!(lossy);
    let rec = ParsedUsnRecord {
        major_version: 2,
        frn: frn(100),
        parent_frn: root_frn(),
        usn: 0,
        timestamp_ft: 0,
        reason: USN_REASON_FILE_CREATE,
        attributes: 0,
        name: name.clone(),
        name_lossy: true,
    };
    idx.insert_enum(&rec);
    let head = idx.head_of(frn(100)).unwrap();
    assert_eq!(idx.entry(head).name(), name.as_slice());
    assert_eq!(
        wtf8::to_utf16(idx.entry(head).name()),
        vec![0x0061, 0xD800, 0x0062]
    );
}

#[test]
fn path_cycle_is_detected_not_looped() {
    // b is under a; a record that moves a under b makes the cycle a -> b -> a.
    let mut idx = index_from_enum(&[
        create(frn(100), root_frn(), "a", true),
        create(frn(101), frn(100), "b", true),
    ]);
    let a = idx.head_of(frn(100)).unwrap();
    idx.apply_batch(&[rename(frn(100), frn(101), "a", true)]);
    let mut buf = Vec::new();
    assert_eq!(idx.path_of(a, &mut buf), PathStatus::CycleDetected);
}

// -- model-based property test -------------------------------------------

/// A reference filesystem the index must mirror.
#[derive(Clone, Default)]
struct Model {
    // frn -> (parent frn, name, is_dir)
    entries: HashMap<u64, (u64, String, bool)>,
}

impl Model {
    fn dirs(&self) -> Vec<u64> {
        let mut v: Vec<u64> = self
            .entries
            .iter()
            .filter(|(_, (_, _, d))| *d)
            .map(|(f, _)| *f)
            .collect();
        v.push(root_frn().0);
        v.sort_unstable();
        v
    }
    fn all(&self) -> Vec<u64> {
        let mut v: Vec<u64> = self.entries.keys().copied().collect();
        v.sort_unstable();
        v
    }
    fn is_descendant_or_self(&self, node: u64, maybe_ancestor: u64) -> bool {
        let mut cur = node;
        for _ in 0..10_000 {
            if cur == maybe_ancestor {
                return true;
            }
            match self.entries.get(&cur) {
                Some((p, _, _)) => cur = *p,
                None => return false,
            }
        }
        false
    }
    fn has_children(&self, node: u64) -> bool {
        self.entries.values().any(|(p, _, _)| *p == node)
    }
    fn path_of(&self, node: u64) -> String {
        let mut parts = Vec::new();
        let mut cur = node;
        while let Some((p, name, _)) = self.entries.get(&cur) {
            parts.push(name.clone());
            cur = *p;
        }
        parts.reverse();
        parts.join("\\")
    }
    fn path_set(&self) -> BTreeSet<String> {
        self.entries.keys().map(|f| self.path_of(*f)).collect()
    }
}

/// A raw action carrying selection seeds; the interpreter resolves them
/// against the live model so every executed action is valid.
#[derive(Clone, Debug)]
enum RawAction {
    Create {
        parent_sel: usize,
        name_sel: u16,
        is_dir: bool,
    },
    Rename {
        target_sel: usize,
        parent_sel: usize,
        name_sel: u16,
    },
    Delete {
        target_sel: usize,
    },
}

/// Unique-per-entry name so distinct entries never share a path; the `sel`
/// prefix lets a rename actually change the name.
fn model_name(sel: u16, frn: u64) -> String {
    format!("{sel}-{frn}")
}

fn raw_action(rng: &mut Rng) -> RawAction {
    match rng.below(3) {
        0 => RawAction::Create {
            parent_sel: rng.below(0x10000) as usize,
            name_sel: rng.below(0x10000) as u16,
            is_dir: rng.below(2) == 0,
        },
        1 => RawAction::Rename {
            target_sel: rng.below(0x10000) as usize,
            parent_sel: rng.below(0x10000) as usize,
            name_sel: rng.below(0x10000) as u16,
        },
        _ => RawAction::Delete {
            target_sel: rng.below(0x10000) as usize,
        },
    }
}

/// Mutates the model for one action and returns the corresponding USN record
/// (or `None` when the action is not currently valid, e.g. delete with no
/// leaves).
fn step_model(
    model: &mut Model,
    next_frn: &mut u64,
    action: &RawAction,
) -> Option<ParsedUsnRecord> {
    match action {
        RawAction::Create {
            parent_sel,
            name_sel,
            is_dir,
        } => {
            let dirs = model.dirs();
            let parent = dirs[parent_sel % dirs.len()];
            let f = *next_frn;
            *next_frn += 1;
            let name = model_name(*name_sel, f);
            model.entries.insert(f, (parent, name.clone(), *is_dir));
            Some(create(frn(f), frn_or_root(parent), &name, *is_dir))
        }
        RawAction::Rename {
            target_sel,
            parent_sel,
            name_sel,
        } => {
            let all = model.all();
            if all.is_empty() {
                return None;
            }
            let target = all[target_sel % all.len()];
            let is_dir = model.entries[&target].2;
            let candidates: Vec<u64> = model
                .dirs()
                .into_iter()
                .filter(|d| !model.is_descendant_or_self(*d, target))
                .collect();
            if candidates.is_empty() {
                return None;
            }
            let new_parent = candidates[parent_sel % candidates.len()];
            let name = model_name(*name_sel, target);
            let e = model.entries.get_mut(&target).unwrap();
            e.0 = new_parent;
            e.1 = name.clone();
            Some(rename(frn(target), frn_or_root(new_parent), &name, is_dir))
        }
        RawAction::Delete { target_sel } => {
            let leaves: Vec<u64> = model
                .all()
                .into_iter()
                .filter(|f| !model.has_children(*f))
                .collect();
            if leaves.is_empty() {
                return None;
            }
            let target = leaves[target_sel % leaves.len()];
            model.entries.remove(&target);
            Some(delete(frn(target)))
        }
    }
}

/// Deterministic in-place shuffle (xorshift; no `Date`/`rand` needed).
fn shuffle<T>(v: &mut [T], seed: u64) {
    let mut state = seed | 1;
    for i in (1..v.len()).rev() {
        state ^= state << 13;
        state ^= state >> 7;
        state ^= state << 17;
        let j = (state % (i as u64 + 1)) as usize;
        v.swap(i, j);
    }
}

/// What the index keeps beside the entries agrees with the entries: every
/// directory is found under its folded name, every name leads to the entries
/// that bear it, each once, and what is below the root and the lost and found
/// directory is every other entry, each once.
fn agrees_with_rebuild(idx: &VolumeIndex) {
    let live = idx.live_entries();
    assert_eq!(live.len(), idx.len());
    for &i in &live {
        let e = idx.entry(i);
        if e.is_dir() && !idx.is_synthetic(i) {
            let found = idx.child_dir(e.parent(), e.folded_name().to_vec());
            let found = found.expect("a directory must be found under its name");
            assert_eq!(idx.entry(found).parent(), e.parent());
            assert_eq!(idx.entry(found).folded_name(), e.folded_name());
        }
    }
    let mut named = Vec::new();
    for id in 0..idx.name_ids() {
        let mut chain = idx.name_chain(id as u32);
        let mut first: Option<Vec<u8>> = None;
        while let Some(i) = chain.next() {
            let name = idx.entry(i).name().to_vec();
            if let Some(f) = &first {
                assert_eq!(f, &name);
            }
            first = Some(name);
            named.push(i);
        }
    }
    named.sort_unstable();
    assert_eq!(named, live);
    let mut below = vec![idx.root(), idx.lost_found()];
    for top in [idx.root(), idx.lost_found()] {
        let mut walk = idx.subtree_entries(top);
        while let Some(i) = walk.next() {
            below.push(i);
        }
    }
    below.sort_unstable();
    below.dedup();
    assert_eq!(below, live);
}

/// The index mirrors a model filesystem across arbitrary create/rename/
/// delete tapes, including O(1) directory renames, orphan resolution, and
/// idempotent replays (each record applied twice).
#[test]
fn model_op_tape_convergence() {
    let mut rng = Rng(0x1F2E_3D4C_5B6A_7988);
    for _ in 0..120 {
        let mut model = Model::default();
        let mut idx = new_index();
        let mut next_frn: u64 = 1000;
        for _ in 0..rng.below(80) {
            let action = raw_action(&mut rng);
            if let Some(rec) = step_model(&mut model, &mut next_frn, &action) {
                idx.apply_batch(std::slice::from_ref(&rec));
                assert_eq!(path_set(&idx), model.path_set());
                agrees_with_rebuild(&idx);
                idx.apply_batch(std::slice::from_ref(&rec)); // idempotent replay
                assert_eq!(path_set(&idx), model.path_set());
                agrees_with_rebuild(&idx);
            }
        }
    }
}

/// Bootstrap race: enumerate a snapshot in ARBITRARY order (parents may
/// follow children, so that placeholders are made), then replay the journal
/// tape from that point. The result must equal the final model regardless of
/// enumeration order.
#[test]
fn bootstrap_race_converges() {
    let mut rng = Rng(0x8877_6655_4433_2211);
    for _ in 0..120 {
        let count = rng.below(70) as usize;
        let actions: Vec<RawAction> = (0..count).map(|_| raw_action(&mut rng)).collect();
        let split_at = rng.below(count as u64 + 1) as usize;
        let shuffle_seed = rng.next();
        let mut model = Model::default();
        let mut next_frn: u64 = 1000;
        let mut journal: Vec<ParsedUsnRecord> = Vec::new();
        let mut snapshot: Option<Model> = None;

        for (i, action) in actions.iter().enumerate() {
            if i == split_at {
                snapshot = Some(model.clone());
            }
            if let Some(rec) = step_model(&mut model, &mut next_frn, action) {
                if i >= split_at {
                    journal.push(rec);
                }
            }
        }
        let snapshot = snapshot.unwrap_or_else(|| model.clone());

        let mut enum_recs: Vec<ParsedUsnRecord> = snapshot
            .entries
            .iter()
            .map(|(f, (p, name, is_dir))| create(frn(*f), frn_or_root(*p), name, *is_dir))
            .collect();
        shuffle(&mut enum_recs, shuffle_seed);

        let mut idx = new_index();
        for r in &enum_recs {
            idx.insert_enum(r);
        }
        idx.apply_batch(&journal);

        assert_eq!(path_set(&idx), model.path_set());
        agrees_with_rebuild(&idx);
    }
}

#[test]
fn enrich_with_renamed_directory_never_orphans_children() {
    // Regression: the ENUM pass sees dir "docs" (frn 100) with child "a.txt";
    // a rename to "documents" is applied (in place) before the FILE_LAYOUT
    // pass, whose snapshot still reports the old name "docs". Enrichment must
    // NOT tombstone the directory entry (which would orphan the child under a
    // reused slot).
    let mut idx = index_from_enum(&[
        create(frn(100), root_frn(), "docs", true),
        create(frn(101), frn(100), "a.txt", false),
    ]);
    // Rename applied live before enrichment.
    idx.apply_batch(&[rename(frn(100), root_frn(), "documents", true)]);
    assert_eq!(
        path_of_frn(&idx, frn(101)).as_deref(),
        Some("documents\\a.txt")
    );

    // Stale FILE_LAYOUT snapshot reports the pre-rename name "docs".
    idx.enrich(&LayoutFile {
        frn: frn(100),
        attributes: FILE_ATTRIBUTE_DIRECTORY,
        size: None,
        mtime_ft: Some(555),
        names: vec![LayoutName {
            parent_frn: root_frn(),
            name: b"docs".to_vec(),
            name_lossy: false,
            dos_only: false,
        }],
    });

    // The child is still correctly under the (renamed) directory, and a later
    // allocation reusing any freed slot cannot misparent it.
    idx.apply_batch(&[create(frn(200), root_frn(), "unrelated.txt", false)]);
    assert_eq!(
        path_of_frn(&idx, frn(101)).as_deref(),
        Some("documents\\a.txt")
    );
    assert_eq!(idx.entry(idx.head_of(frn(100)).unwrap()).mtime(), Some(555));
}

#[test]
fn model_names_are_path_unique() {
    // Guards the proptest's assumption; also checks same-name-different-dir.
    let mut seen = HashSet::new();
    let idx = index_from_enum(&[
        create(frn(100), root_frn(), "x", true),
        create(frn(101), frn(100), "x", true),
    ]);
    for p in idx.collect_real_paths() {
        assert!(seen.insert(p), "paths must be unique");
    }
}

/// A small generator of test data: the same values in every run.
struct Rng(u64);

impl Rng {
    fn next(&mut self) -> u64 {
        self.0 ^= self.0 << 13;
        self.0 ^= self.0 >> 7;
        self.0 ^= self.0 << 17;
        self.0
    }

    fn below(&mut self, n: u64) -> u64 {
        self.next() % n
    }
}

/// A layout may name a file whose record another file held before: the old
/// entries make room.
#[test]
fn enrich_takes_over_a_record_that_was_reused() {
    let mut idx = new_index();
    idx.insert_enum(&create(frn_seq(100, 3), root_frn(), "old.txt", false));
    idx.enrich(&LayoutFile {
        frn: frn_seq(100, 4),
        attributes: 0x20,
        size: Some(1),
        mtime_ft: Some(2),
        names: vec![LayoutName {
            parent_frn: root_frn(),
            name: b"new.txt".to_vec(),
            name_lossy: false,
            dos_only: false,
        }],
    });
    assert_eq!(idx.collect_real_paths(), vec!["new.txt".to_string()]);
    assert_eq!(idx.stats().stale_slots, 1);
    assert_eq!(idx.len(), 3);
    assert_eq!(idx.head_of(frn_seq(100, 3)), None);
    agrees_with_rebuild(&idx);
}

/// What lay below a directory that is gone is not told below the next tenant
/// of its record.
#[test]
fn a_child_left_behind_is_not_told_below_the_next_tenant() {
    let mut idx = new_index();
    idx.insert_enum(&create(frn_seq(100, 3), root_frn(), "olddir", true));
    idx.insert_enum(&create(frn_seq(200, 1), frn_seq(100, 3), "ghost.txt", false));
    idx.insert_enum(&create(frn_seq(201, 1), frn_seq(100, 3), "ghostdir", true));
    let old = idx.head_of(frn_seq(100, 3)).expect("known");
    idx.apply_batch(&[create(frn_seq(100, 4), root_frn(), "new.txt", false)]);
    assert_eq!(idx.stats().stale_slots, 1);
    assert_eq!(idx.collect_real_paths(), vec!["new.txt".to_string()]);
    let ghost = idx.head_of(frn_seq(200, 1)).expect("known");
    let mut buf = Vec::new();
    assert_eq!(idx.path_of(ghost, &mut buf), PathStatus::InLostFound);
    assert_eq!(idx.child_dir(old, b"ghostdir".to_vec()), None);
    // A new place makes it known again.
    idx.apply_batch(&[rename(frn_seq(200, 1), root_frn(), "found.txt", false)]);
    assert_eq!(
        path_set(&idx),
        BTreeSet::from(["found.txt".to_string(), "new.txt".to_string()])
    );
}

/// The order in which a snapshot is listed leaves no trace.
#[test]
fn listing_order_does_not_matter() {
    let recs = [
        create(frn(100), root_frn(), "docs", true),
        create(frn(101), frn(100), "deep", true),
        create(frn(102), frn(101), "a.txt", false),
    ];
    let orders = [[0, 1, 2], [0, 2, 1], [1, 0, 2], [1, 2, 0], [2, 0, 1], [2, 1, 0]];
    for order in orders {
        let mut idx = new_index();
        for k in order {
            idx.insert_enum(&recs[k]);
        }
        assert_eq!(
            path_set(&idx),
            BTreeSet::from([
                "docs".to_string(),
                "docs\\deep".to_string(),
                "docs\\deep\\a.txt".to_string(),
            ])
        );
        assert_eq!(idx.len(), 5);
        assert!(!idx.has_orphans());
    }
}

/// A whole batch applied a second time changes nothing but what is counted.
#[test]
fn a_batch_twice_tells_what_it_told_once() {
    let batch = [
        create(frn(100), root_frn(), "docs", true),
        create(frn(101), frn(100), "a.txt", false),
        rename(frn(101), root_frn(), "b.txt", false),
        create(frn(102), frn(100), "c.txt", false),
        delete(frn(102)),
    ];
    let mut idx = new_index();
    idx.apply_batch(&batch);
    let once = path_set(&idx);
    assert_eq!(once, BTreeSet::from(["docs".to_string(), "b.txt".to_string()]));
    idx.apply_batch(&batch);
    assert_eq!(path_set(&idx), once);
    assert_eq!(idx.len(), 4);
    assert_eq!(idx.generation(), 2);
}

/// What an index tells and holds, whatever slots its entries are in.
fn picture(idx: &VolumeIndex) -> (Vec<String>, usize, bool) {
    let mut paths = idx.collect_real_paths();
    paths.sort();
    (paths, idx.len(), idx.has_orphans())
}

/// A file with several links and a directory known by number only are no
/// obstacle: a batch read again changes nothing.
#[test]
fn a_batch_twice_is_a_batch_once_beside_links_and_orphans() {
    let mut idx = new_index();
    idx.insert_enum(&create(frn(100), root_frn(), "docs", true));
    idx.insert_enum(&create(frn(101), frn(100), "one.txt", false));
    idx.enrich(&LayoutFile {
        frn: frn(101),
        attributes: 0x20,
        size: Some(7),
        mtime_ft: Some(8),
        names: vec![
            LayoutName {
                parent_frn: frn(100),
                name: b"one.txt".to_vec(),
                name_lossy: false,
                dos_only: false,
            },
            LayoutName {
                parent_frn: root_frn(),
                name: b"two.txt".to_vec(),
                name_lossy: false,
                dos_only: false,
            },
        ],
    });
    // Its directory is not known yet.
    idx.insert_enum(&create(frn(300), frn(301), "waiting.txt", false));
    assert!(idx.has_orphans());
    let batches = [
        // Seen under one of its names: the links stay.
        vec![rename(frn(101), frn(100), "three.txt", false)],
        // Another directory that is known by number only.
        vec![create(frn(102), frn(400), "a.txt", false), rename(frn(102), frn(100), "b.txt", false)],
        // A directory ends before what is in it, and its number changes hands.
        vec![
            create(frn(500), root_frn(), "gone", true),
            create(frn(501), frn(500), "left.txt", false),
            create(frn_seq(500, 2), root_frn(), "new", true),
            create(frn(502), frn_seq(500, 2), "in.txt", false),
        ],
        vec![delete(frn_seq(500, 2)), create(frn(503), frn_seq(500, 2), "late.txt", false)],
        // The file with the links goes and comes back with one.
        vec![delete(frn(101)), create(frn(101), root_frn(), "back.txt", false)],
        vec![create(frn(301), root_frn(), "found", true)],
    ];
    for batch in &batches {
        let before = idx.generation();
        idx.apply_batch(batch);
        let once = picture(&idx);
        idx.apply_batch(batch);
        assert_eq!(picture(&idx), once);
        assert_eq!(idx.generation(), before + 2);
    }
    assert_eq!(
        path_set(&idx),
        BTreeSet::from([
            "docs".to_string(),
            "docs\\b.txt".to_string(),
            "back.txt".to_string(),
            "found".to_string(),
            "found\\waiting.txt".to_string(),
        ])
    );
}

#[test]
fn links_of_a_file_follow_each_other() {
    let mut idx = new_index();
    idx.insert_enum(&create(frn(100), root_frn(), "a.txt", false));
    let head = idx.head_of(frn(100)).expect("known");
    assert_eq!(idx.entry(head).next_link(), NIL);
    idx.reconcile_links(
        frn(100),
        &[
            LinkTarget { parent: idx.root(), name: WtfName::new(b"a.txt".to_vec(), false) },
            LinkTarget { parent: idx.root(), name: WtfName::new(b"b.txt".to_vec(), false) },
        ],
    );
    let head = idx.head_of(frn(100)).expect("known");
    let second = idx.entry(head).next_link();
    assert_eq!(idx.entry(head).name(), b"a.txt");
    assert_eq!(idx.entry(second).name(), b"b.txt");
    assert_eq!(idx.entry(second).next_link(), NIL);
}

/// Without a root directory nothing is told, however often that is said.
#[test]
fn a_batch_that_ends_the_root_tells_nothing() {
    let mut idx = new_index();
    idx.insert_enum(&create(frn(100), root_frn(), "docs", true));
    let batch = [
        delete(root_frn()),
        create(frn(101), frn(100), "x", false),
        create(frn(102), frn(100), "y", false),
        delete(frn(101)),
        delete(frn(102)),
        create(frn(101), frn(100), "x", false),
        create(frn(102), frn(100), "y", false),
    ];
    idx.apply_batch(&batch);
    let once = picture(&idx);
    assert!(once.0.is_empty());
    idx.apply_batch(&batch);
    assert_eq!(picture(&idx), once);
}
