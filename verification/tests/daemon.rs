use goz::daemon::bootstrap::{
    scan_outcome, scan_targets, BuildError, BuildPhase, IndexBuild, LayoutAnswer, ScanError,
};
use goz::daemon::journal::{
    ensure_journal, journal_task, JournalEvent, JournalNote, JournalState, JournalTask,
    JOURNAL_ALLOC_DELTA, JOURNAL_MIN_SIZE,
};
use goz::daemon::state::mount_prefix;
use goz::usn::WalkError;
use goz::winfs::{JournalInfo, JournalQuery, VolumeInfo};

fn info(maximum_size: u64) -> JournalInfo {
    JournalInfo {
        journal_id: 1,
        first_usn: 2,
        next_usn: 3,
        lowest_valid_usn: 4,
        max_usn: 5,
        maximum_size,
    }
}

/// Runs the journal to its end, answering queries and creations in turn.
fn settle(
    mut queries: Vec<Result<JournalQuery, ()>>,
    create_works: bool,
) -> (Option<JournalInfo>, Vec<JournalNote>) {
    queries.reverse();
    let mut notes = Vec::new();
    let mut state = JournalState::Unknown;
    loop {
        let event = match journal_task(state) {
            JournalTask::Finish(r) => return (r, notes),
            JournalTask::Query => match queries.pop().expect("no further query") {
                Ok(q) => JournalEvent::Queried(q),
                Err(()) => JournalEvent::QueryFailed,
            },
            JournalTask::Create { maximum_size, allocation_delta } => {
                assert_eq!(maximum_size, JOURNAL_MIN_SIZE);
                assert_eq!(allocation_delta, JOURNAL_ALLOC_DELTA);
                if create_works {
                    JournalEvent::Done
                } else {
                    JournalEvent::CreateFailed
                }
            }
        };
        let (next, note) = ensure_journal(state, event);
        notes.extend(note);
        state = next;
    }
}

#[test]
fn a_large_journal_is_used_as_it_is() {
    let big = info(JOURNAL_MIN_SIZE);
    assert_eq!(settle(vec![Ok(JournalQuery::Active(big))], true), (Some(big), vec![]));
}

#[test]
fn a_small_journal_is_grown_and_used_either_way() {
    let small = info(JOURNAL_MIN_SIZE - 1);
    let ask = || vec![Ok(JournalQuery::Active(small))];
    assert_eq!(settle(ask(), true), (Some(small), vec![]));
    assert_eq!(settle(ask(), false), (Some(small), vec![JournalNote::CannotGrow]));
}

#[test]
fn a_missing_journal_is_made_and_asked_for_again() {
    let made = info(1);
    assert_eq!(
        settle(
            vec![Ok(JournalQuery::NotActive), Ok(JournalQuery::Active(made))],
            true
        ),
        (Some(made), vec![])
    );
    assert_eq!(
        settle(vec![Ok(JournalQuery::NotActive)], false),
        (None, vec![JournalNote::CannotCreate])
    );
    assert_eq!(
        settle(vec![Ok(JournalQuery::NotActive), Err(())], true),
        (None, vec![JournalNote::CannotQueryAgain])
    );
    assert_eq!(
        settle(
            vec![Ok(JournalQuery::NotActive), Ok(JournalQuery::NotActive)],
            true
        ),
        (None, vec![JournalNote::NotActive])
    );
}

#[test]
fn a_journal_that_cannot_be_used() {
    assert_eq!(
        settle(vec![Ok(JournalQuery::DeleteInProgress)], true),
        (None, vec![JournalNote::DeleteInProgress])
    );
    assert_eq!(
        settle(vec![Err(())], true),
        (None, vec![JournalNote::CannotQuery])
    );
    assert_eq!(
        JournalNote::CannotCreate.text(),
        "no USN journal and could not create one; live updates unavailable"
    );
    assert_eq!(
        JournalNote::CannotGrow.text(),
        "could not grow the USN journal; a smaller journal wraps sooner"
    );
}

fn volume(is_fixed: bool, is_ntfs: bool) -> VolumeInfo {
    VolumeInfo {
        guid_path: "g".to_string(),
        mounts: vec![],
        is_fixed,
        is_ntfs,
    }
}

#[test]
fn only_fixed_ntfs_volumes_are_scanned() {
    let all = [
        volume(true, false),
        volume(true, true),
        volume(false, true),
        volume(true, true),
    ];
    assert_eq!(scan_targets(&all), Ok(vec![1, 3]));
    assert_eq!(scan_targets(&all[2..3]), Err(ScanError::NoVolumes));
    assert_eq!(scan_outcome(1), Ok(()));
    assert_eq!(scan_outcome(0), Err(ScanError::NoneBootstrapped));
    assert_eq!(ScanError::NoVolumes.message(), "no fixed NTFS volumes found");
    assert_eq!(
        ScanError::NoneBootstrapped.message(),
        "no volume could be bootstrapped (see the log for per-volume errors)"
    );
}

#[test]
fn paths_begin_with_the_first_mount_point() {
    let guid = "\\\\?\\Volume{x}\\".to_string();
    assert_eq!(mount_prefix(&vec!["C:\\".to_string(), "D:\\".to_string()], &guid), "C:\\");
    assert_eq!(mount_prefix(&vec![], &guid), &guid);
}

fn record(frn: u64, parent: u64, name: &str, attributes: u32) -> Vec<u8> {
    let units: Vec<u16> = name.encode_utf16().collect();
    let len = (60 + units.len() * 2 + 7) / 8 * 8;
    let mut b = Vec::new();
    b.extend_from_slice(&(len as u32).to_le_bytes());
    b.extend_from_slice(&2u16.to_le_bytes());
    b.extend_from_slice(&0u16.to_le_bytes());
    b.extend_from_slice(&frn.to_le_bytes());
    b.extend_from_slice(&parent.to_le_bytes());
    b.extend_from_slice(&[0u8; 28]);
    b.extend_from_slice(&attributes.to_le_bytes());
    b.extend_from_slice(&((units.len() * 2) as u16).to_le_bytes());
    b.extend_from_slice(&60u16.to_le_bytes());
    for u in units {
        b.extend_from_slice(&u.to_le_bytes());
    }
    b.resize(len, 0);
    b
}

fn listing(next: u64, records: &[Vec<u8>]) -> Vec<u8> {
    let mut b = next.to_le_bytes().to_vec();
    for r in records {
        b.extend_from_slice(r);
    }
    b
}

const ROOT: u64 = 0x0005_0000_0000_0005;

#[test]
fn an_index_is_filled_from_listings_and_layouts() {
    let dir = 0x0001_0000_0000_0064;
    let file = 0x0001_0000_0000_0065;
    let mut build = IndexBuild::new();
    assert_eq!(build.next(), BuildPhase::Listing(0));
    let one = listing(7, &[record(file, dir, "a.txt", 0x20), record(dir, ROOT, "d", 0x10)]);
    build.take_listing(Some(&one)).expect("well-formed");
    assert_eq!(build.next(), BuildPhase::Listing(7));
    // A buffer without records that leads nowhere is the end.
    build.take_listing(Some(&listing(7, &[]))).expect("well-formed");
    assert_eq!(build.next(), BuildPhase::Layout { restart: true });

    let mut layout = Vec::new();
    layout.extend_from_slice(&0u32.to_le_bytes());
    layout.extend_from_slice(&[0u8; 12]);
    build.take_layout(LayoutAnswer::Data(&layout)).expect("well-formed");
    assert_eq!(build.next(), BuildPhase::Layout { restart: false });
    build.take_layout(LayoutAnswer::End).expect("no data");
    assert_eq!(build.next(), BuildPhase::Done);
    let index = build.finish();
    let mut paths = index.collect_real_paths();
    paths.sort();
    assert_eq!(paths, vec!["d".to_string(), "d\\a.txt".to_string()]);
}

#[test]
fn malformed_answers_end_the_filling() {
    let mut build = IndexBuild::new();
    assert_eq!(
        build.take_listing(Some(&[1, 2, 3])),
        Err(BuildError::Records(WalkError::TruncatedHeader { offset: 0 }))
    );
    assert_eq!(build.next(), BuildPhase::Listing(0));
    build.take_listing(None).expect("nothing left");
    assert!(matches!(
        build.take_layout(LayoutAnswer::Data(&[1])),
        Err(BuildError::Layout(_))
    ));
    build.take_layout(LayoutAnswer::Failed).expect("kept as it is");
    assert_eq!(build.next(), BuildPhase::Done);
}
