use goz::index::frn_map::table_is_smaller;
use goz::index::names::NameStore;
use goz::index::store::with_headroom;
use goz::index::{FrnMap, LinkTarget, PathStatus, VolumeIndex, WtfName, NTFS_ROOT_FRN};
use goz::layout::{LayoutFile, LayoutName};
use goz::types::{Frn, NIL};
use goz::usn::record::{
    FILE_ATTRIBUTE_DIRECTORY, USN_REASON_BASIC_INFO_CHANGE, USN_REASON_FILE_CREATE,
    USN_REASON_FILE_DELETE, USN_REASON_HARD_LINK_CHANGE, USN_REASON_RENAME_NEW_NAME,
    USN_REASON_RENAME_OLD_NAME,
};
use goz::usn::ParsedUsnRecord;

fn frn(rec: u64) -> Frn {
    Frn(rec | (1u64 << 48))
}

fn root() -> Frn {
    Frn(NTFS_ROOT_FRN)
}

fn record(frn: Frn, parent: Frn, name: &str, is_dir: bool, reason: u32) -> ParsedUsnRecord {
    ParsedUsnRecord {
        major_version: 2,
        frn,
        parent_frn: parent,
        usn: 0,
        timestamp_ft: 0,
        reason,
        attributes: if is_dir { FILE_ATTRIBUTE_DIRECTORY } else { 0 },
        name: name.as_bytes().to_vec(),
        name_lossy: false,
    }
}

fn create(frn: Frn, parent: Frn, name: &str, is_dir: bool) -> ParsedUsnRecord {
    record(frn, parent, name, is_dir, USN_REASON_FILE_CREATE)
}

fn delete(frn: Frn) -> ParsedUsnRecord {
    record(frn, root(), "", false, USN_REASON_FILE_DELETE)
}

fn index() -> VolumeIndex {
    VolumeIndex::new(root(), FrnMap::sparse())
}

fn paths(idx: &VolumeIndex) -> Vec<String> {
    let mut v = idx.collect_real_paths();
    v.sort();
    v
}

#[test]
fn a_new_index_has_its_two_topmost_directories() {
    let idx = index();
    assert_eq!(idx.len(), 2);
    assert!(!idx.is_empty());
    assert_eq!(idx.allocated(), 2);
    assert_eq!(idx.live_entries(), vec![idx.root(), idx.lost_found()]);
    assert!(idx.is_synthetic(idx.root()) && idx.is_synthetic(idx.lost_found()));
    assert_eq!(idx.generation(), 0);
    assert!(!idx.has_orphans());
    assert_eq!(idx.entry(idx.root()).parent(), NIL);
    assert_eq!(idx.entry(idx.root()).frn(), root());
    let mut buf = Vec::new();
    assert_eq!(idx.path_of(idx.root(), &mut buf), PathStatus::Whole);
    assert!(buf.is_empty());
    assert_eq!(idx.path_of(idx.lost_found(), &mut buf), PathStatus::InLostFound);
}

#[test]
fn checked_changes_do_what_the_plain_ones_do() {
    let recs = [
        create(frn(100), root(), "Docs", true),
        create(frn(101), frn(100), "A.txt", false),
    ];
    let mut plain = index();
    let mut checked = index();
    for r in &recs {
        plain.insert_enum(r);
        assert!(checked.try_insert_enum(r));
    }
    assert_eq!(paths(&plain), paths(&checked));
    let batch = [create(frn(102), frn(100), "B.txt", false), delete(frn(101))];
    let one = plain.apply_batch(&batch);
    let two = checked.try_apply_batch(&batch).expect("there is room");
    assert_eq!(one, two);
    assert_eq!(paths(&plain), vec!["Docs".to_string(), "Docs\\B.txt".to_string()]);
    assert_eq!(paths(&plain), paths(&checked));
    let dir = checked.head_of(frn(100)).expect("known");
    let links = [
        LinkTarget { parent: dir, name: WtfName::new(b"B.txt".to_vec(), false) },
        LinkTarget { parent: checked.root(), name: WtfName::new(b"C.txt".to_vec(), false) },
    ];
    assert!(checked.try_reconcile_links(frn(102), &links));
    assert_eq!(
        paths(&checked),
        vec!["C.txt".to_string(), "Docs".to_string(), "Docs\\B.txt".to_string()]
    );
    let file = LayoutFile {
        frn: frn(102),
        attributes: 0x20,
        size: Some(9),
        mtime_ft: Some(8),
        names: vec![LayoutName {
            parent_frn: frn(100),
            name: b"B.txt".to_vec(),
            name_lossy: false,
            dos_only: false,
        }],
    };
    // What the layout does not name stays.
    assert!(checked.try_enrich(&file));
    assert_eq!(
        paths(&checked),
        vec!["C.txt".to_string(), "Docs".to_string(), "Docs\\B.txt".to_string()]
    );
    let head = checked.head_of(frn(102)).expect("known");
    assert_eq!(checked.entry(head).size(), Some(9));
    assert_eq!(checked.entry(head).mtime(), Some(8));
}

#[test]
fn what_does_not_fit_is_refused_and_changes_nothing() {
    let mut idx = index();
    let long = "x".repeat(70_000);
    assert!(!idx.try_insert_enum(&create(frn(100), root(), &long, false)));
    assert!(idx.try_apply_batch(&[create(frn(100), root(), &long, false)]).is_none());
    assert_eq!(idx.len(), 2);
    assert_eq!(idx.generation(), 0);
    assert!(idx.has_room(1, 10, 10));
    assert!(!idx.has_space(u64::MAX, 0, 0));
    assert!(!idx.has_room(0, u64::MAX, 0));
}

#[test]
fn a_batch_reports_what_is_left_to_do() {
    let mut idx = index();
    let out = idx.apply_batch(&[
        create(frn(100), root(), "a", false),
        record(frn(100), root(), "a", false, USN_REASON_HARD_LINK_CHANGE),
        record(frn(100), root(), "a", false, USN_REASON_BASIC_INFO_CHANGE),
        record(frn(100), root(), "a", false, USN_REASON_RENAME_OLD_NAME),
    ]);
    assert_eq!(out.needs_stat, vec![frn(100), frn(100)]);
    assert_eq!(out.needs_link_reconcile, vec![frn(100)]);
    assert!(out.anomalies.is_empty());
    assert_eq!(idx.stats().rename_old_seen, 1);
    assert_eq!(idx.generation(), 1);
    idx.note_link_reconciles_dropped(3);
    assert_eq!(idx.stats().link_reconciles_dropped, 3);
    idx.set_stat(frn(100), 5, 6);
    let head = idx.head_of(frn(100)).expect("known");
    assert_eq!(idx.entry(head).size(), Some(5));
    assert_eq!(idx.entry(head).mtime(), Some(6));
}

#[test]
fn a_deletion_of_an_unknown_file_changes_no_entry() {
    let mut idx = index();
    idx.insert_enum(&create(frn(100), root(), "a", false));
    let before = idx.live_entries();
    idx.apply_batch(&[delete(frn(999))]);
    assert_eq!(idx.live_entries(), before);
    assert_eq!(idx.stats().delete_of_unknown, 1);
}

#[test]
fn batches_can_be_joined() {
    let recs = [
        create(frn(100), root(), "d", true),
        create(frn(101), frn(100), "a", false),
        record(frn(101), root(), "b", false, USN_REASON_RENAME_NEW_NAME),
        delete(frn(100)),
        create(frn(102), root(), "c", false),
    ];
    let mut whole = index();
    whole.apply_batch(&recs);
    let mut parts = index();
    parts.apply_batch(&recs[..2]);
    parts.apply_batch(&recs[2..]);
    assert_eq!(paths(&whole), paths(&parts));
    assert_eq!(whole.live_entries(), parts.live_entries());
}

/// Enough names of 100 bytes to make the garbage worth collecting.
fn churned() -> VolumeIndex {
    let mut idx = index();
    idx.insert_enum(&create(frn(50), root(), "kept", true));
    idx.insert_enum(&create(frn(51), frn(50), "child.txt", false));
    for i in 0..200u64 {
        let name = format!("{i:0100}");
        idx.insert_enum(&create(frn(1000 + i), root(), &name, false));
    }
    let gone: Vec<ParsedUsnRecord> = (0..150u64).map(|i| delete(frn(1000 + i))).collect();
    let out = idx.apply_batch(&gone);
    assert!(out.wants_compact);
    idx
}

#[test]
fn compaction_keeps_every_name() {
    let mut idx = churned();
    let before = paths(&idx);
    let ids = idx.name_ids();
    let bytes = idx.folded_bytes().len();
    let plan = idx.plan_compaction().expect("worth it");
    idx.apply_compaction(plan);
    assert_eq!(paths(&idx), before);
    assert!(idx.name_ids() < ids);
    assert!(idx.folded_bytes().len() < bytes);
    assert!(idx.plan_compaction().is_none());
    let kept = idx.head_of(frn(50)).expect("known");
    assert_eq!(idx.child_dir(idx.root(), b"kept".to_vec()), Some(kept));
}

/// What lay below a directory that is gone is told nowhere, also once the
/// directory's name is gone too.
#[test]
fn a_child_of_a_directory_that_is_gone_is_lost() {
    let mut idx = churned();
    idx.apply_batch(&[delete(frn(50))]);
    let child = idx.head_of(frn(51)).expect("known");
    let mut buf = Vec::new();
    assert!(idx.can_tell(child));
    assert_eq!(idx.try_path_of(child, &mut buf), Some(PathStatus::InLostFound));
    assert!(paths(&idx).iter().all(|p| !p.contains("child.txt")));
    let plan = idx.plan_compaction().expect("worth it");
    idx.apply_compaction(plan);
    buf.clear();
    assert_eq!(idx.try_path_of(child, &mut buf), Some(PathStatus::InLostFound));
    assert!(!idx.can_tell(NIL));
}

#[test]
fn directories_are_counted_in_buckets() {
    let mut idx = index();
    assert_eq!(idx.memory().dir_children.used, 0);
    idx.insert_enum(&create(frn(10), root(), "a", true));
    idx.insert_enum(&create(frn(11), root(), "b", true));
    idx.insert_enum(&create(frn(12), root(), "c", false));
    let bucket = if usize::BITS == 64 { 41 } else { 33 };
    assert_eq!(idx.memory().dir_children.used, 2 * bucket);
}

#[test]
fn equal_names_are_one() {
    let mut names = NameStore::new();
    let a = names.intern(b"Same");
    let b = names.intern(b"Other");
    assert_ne!(a, b);
    assert_eq!(names.intern(b"Same"), a);
    assert_ne!(names.intern(b"same"), a);
    assert_eq!(names.raw_bytes(a), b"Same");
    assert_eq!(names.folded_bytes_of(a), b"same");
    // A name in use keeps its number; one that nobody uses is taken anew.
    names.release(a);
    assert_eq!(names.intern(b"Same"), a);
    names.release(a);
    names.release(a);
    let again = names.intern(b"Same");
    assert_ne!(again, a);
    assert_eq!(names.raw_bytes(again), b"Same");
}

#[test]
fn storage_can_be_made_smaller() {
    let mut idx = index();
    for i in 0..300u64 {
        idx.insert_enum(&create(frn(6 + i), root(), &format!("n{}", i % 10), false));
    }
    assert_eq!(idx.memory().frn_map_kind, "sparse");
    // The two topmost directories and ten names.
    assert!(idx.name_ids() <= 12);
    let before = paths(&idx);
    let used = idx.memory();
    assert_eq!(used.entries.used, 302 * 57);
    assert!(used.total().allocated >= used.total().used);
    idx.shrink_to_fit();
    assert_eq!(paths(&idx), before);
    let shrunk = idx.memory();
    assert_eq!(shrunk.total().used, used.total().used);
    assert!(shrunk.total().allocated <= used.total().allocated);
    idx.optimize_storage();
    assert_eq!(paths(&idx), before);
    // Record numbers are dense, all but that of the lost and found directory.
    let kind = idx.memory().frn_map_kind;
    assert!(kind == "sparse" || kind == "dense");
    idx.insert_enum(&create(frn(9000), root(), "late", false));
    assert!(idx.head_of(frn(9000)).is_some());
}

#[test]
fn a_table_wins_where_records_are_dense() {
    // 100 * 8 / 7 = 114, so 128 buckets of 17 bytes.
    assert!(table_is_smaller(542, 100));
    assert!(!table_is_smaller(543, 100));
    assert!(!table_is_smaller(u64::MAX, 100));
    let mut dense = FrnMap::sparse();
    for r in 0..100u64 {
        dense.set(r, r as u32 + 1);
    }
    dense.densify_if_smaller();
    assert_eq!(dense.kind(), "dense");
    assert_eq!(dense.get(99), Some(100));
    assert_eq!(dense.get(100), None);
    let mut thin = FrnMap::sparse();
    thin.set(1 << 40, 7);
    thin.densify_if_smaller();
    assert_eq!(thin.kind(), "sparse");
    assert_eq!(thin.get(1 << 40), Some(7));
    thin.remove(1 << 40);
    assert_eq!(thin.get(1 << 40), None);
    let table = FrnMap::dense(4);
    assert_eq!(table.get(3), None);
    assert_eq!(table.memory().used, 16);
}

#[test]
fn a_part_of_the_room_is_kept() {
    assert_eq!(with_headroom(0), 64);
    assert_eq!(with_headroom(127), 192);
    assert_eq!(with_headroom(128), 194);
    assert_eq!(with_headroom(6400), 6564);
    assert_eq!(with_headroom(usize::MAX), usize::MAX);
}

#[test]
fn names_are_shared_and_walked() {
    let mut idx = index();
    idx.insert_enum(&create(frn(10), root(), "A", true));
    idx.insert_enum(&create(frn(11), frn(10), "same", false));
    idx.insert_enum(&create(frn(12), root(), "same", false));
    idx.insert_enum(&create(frn(13), frn(10), "B", true));
    idx.insert_enum(&create(frn(14), frn(13), "deep", false));
    let mut found = Vec::new();
    for id in 0..idx.name_ids() {
        let mut chain = idx.name_chain(id as u32);
        let mut members = Vec::new();
        while let Some(i) = chain.next() {
            members.push(i);
        }
        if members.len() == 2 {
            members.sort_unstable();
            found.push(members);
        }
    }
    let mut want = vec![idx.head_of(frn(11)).unwrap(), idx.head_of(frn(12)).unwrap()];
    want.sort_unstable();
    assert_eq!(found, vec![want]);
    let mut walk = idx.subtree_entries(idx.head_of(frn(10)).unwrap());
    let mut below = Vec::new();
    while let Some(i) = walk.next() {
        below.push(idx.entry(i).name().to_vec());
    }
    below.sort();
    assert_eq!(below, vec![b"B".to_vec(), b"deep".to_vec(), b"same".to_vec()]);
    // Directories are found under their folded names.
    assert_eq!(idx.child_dir(idx.root(), b"a".to_vec()), idx.head_of(frn(10)));
    assert_eq!(idx.child_dir(idx.root(), b"A".to_vec()), None);
    assert_eq!(idx.child_dir(idx.root(), b"same".to_vec()), None);
    assert_eq!(idx.folded_name(idx.head_of(frn(10)).unwrap()), b"a");
    assert!(idx.entry(idx.head_of(frn(10)).unwrap()).is_dir());
}

#[test]
fn an_orphan_waits_for_its_directory() {
    let mut idx = index();
    idx.insert_enum(&create(frn(101), frn(100), "child", false));
    assert!(idx.has_orphans());
    let child = idx.head_of(frn(101)).expect("known");
    let mut buf = Vec::new();
    assert_eq!(idx.path_of(child, &mut buf), PathStatus::InLostFound);
    let place = idx.entry(child).parent();
    assert!(idx.is_synthetic(place));
    idx.insert_enum(&create(frn(100), root(), "dir", true));
    assert!(!idx.has_orphans());
    assert_eq!(idx.head_of(frn(100)), Some(place));
    assert_eq!(paths(&idx), vec!["dir".to_string(), "dir\\child".to_string()]);
}
