use goz::winfs::error::{bytes_or_end, ERROR_HANDLE_EOF, ERROR_MORE_DATA};
use goz::winfs::ioctl::{
    all_files_input, create_input, ctl_code, enum_input, layout_input, read_input,
    FSCTL_CREATE_USN_JOURNAL, FSCTL_ENUM_USN_DATA, FSCTL_QUERY_FILE_LAYOUT,
    FSCTL_QUERY_USN_JOURNAL, FSCTL_READ_USN_JOURNAL,
};
use goz::winfs::journal::{
    journal_state, ERROR_JOURNAL_DELETE_IN_PROGRESS, ERROR_JOURNAL_ENTRY_DELETED,
    ERROR_JOURNAL_NOT_ACTIVE, JOURNAL_DATA_LEN,
};
use goz::winfs::links::{
    final_path_units, LinkAction, LinkEvent, LinkWalk, MAX_LINKS, NAME_BUF_UNITS,
};
use goz::winfs::process::{
    first_trust_step, next_trust_step, pinned_limits, pipe_sddl, privilege_outcome,
    volume_privileges, OwnerCheck, TrustStep, AUTH_USERS_ACCESS, AUTH_USERS_MASK,
    ERROR_NOT_ALL_ASSIGNED, QUOTA_LIMITS_HARDWS_MAX_DISABLE, QUOTA_LIMITS_HARDWS_MIN_ENABLE,
};
use goz::winfs::stat::stat_of;
use goz::winfs::volumes::{after_mount_query, classify_volume, device_path, MountStep};
use goz::winfs::wide::{find_nul, from_wide_nul, split_multi_sz, take_name, to_wide_nul};
use goz::winfs::{JournalQuery, SelfMemory, WinError};

#[test]
fn fsctl_codes_match_known_constants() {
    // Well-known winioctl.h values (verified against the SDK header).
    assert_eq!(FSCTL_ENUM_USN_DATA, 0x0009_00B3);
    assert_eq!(FSCTL_QUERY_USN_JOURNAL, 0x0009_00F4);
    assert_eq!(FSCTL_CREATE_USN_JOURNAL, 0x0009_00E4);
    assert_eq!(FSCTL_READ_USN_JOURNAL, 0x0009_00BB);
    assert_eq!(FSCTL_QUERY_FILE_LAYOUT, 0x0009_0277);
}

#[test]
fn ctl_code_matches_macro_expansion() {
    // CTL_CODE(9, 44, METHOD_NEITHER, FILE_ANY_ACCESS)
    assert_eq!(ctl_code(9, 44, 3, 0), (9 << 16) | (44 << 2) | 3);
    // access bits land at position 14
    assert_eq!(ctl_code(0, 0, 0, 1), 1 << 14);
}

#[test]
fn control_codes_are_made_from_their_parts() {
    assert_eq!(ctl_code(9, 44, 3, 0), FSCTL_ENUM_USN_DATA);
    assert_eq!(ctl_code(9, 61, 0, 0), FSCTL_QUERY_USN_JOURNAL);
    assert_eq!(ctl_code(9, 57, 0, 0), FSCTL_CREATE_USN_JOURNAL);
    assert_eq!(ctl_code(9, 46, 3, 0), FSCTL_READ_USN_JOURNAL);
    assert_eq!(ctl_code(9, 157, 3, 0), FSCTL_QUERY_FILE_LAYOUT);
}

const FILE_CREATE_PIPE_INSTANCE: u32 = 0x4;
const FILE_GENERIC_READ: u32 = 0x12_0089;
const FILE_GENERIC_WRITE: u32 = 0x12_0116;

fn auth_users_mask() -> u32 {
    u32::from_str_radix(AUTH_USERS_ACCESS.trim_start_matches("0x"), 16)
        .expect("AUTH_USERS_ACCESS must be a 0x-prefixed hex mask")
}

/// The security invariant: an unelevated client must never be able to add a
/// competing instance to the daemon's pipe name. This is the assert that
/// must survive any future DACL edit.
#[test]
fn auth_users_never_get_create_pipe_instance() {
    assert_eq!(
        auth_users_mask() & FILE_CREATE_PIPE_INSTANCE,
        0,
        "AU grant {AUTH_USERS_ACCESS} includes FILE_CREATE_PIPE_INSTANCE: \
         an unelevated process could squat the pipe name"
    );
}

/// Pins the grant to the formula documented on `AUTH_USERS_ACCESS`, so
/// widening AU beyond read + write trips here rather than in production.
#[test]
fn auth_users_access_matches_documented_formula() {
    let expected = (FILE_GENERIC_READ | FILE_GENERIC_WRITE) & !FILE_CREATE_PIPE_INSTANCE;
    assert_eq!(auth_users_mask(), expected);
}

#[test]
fn the_mask_and_its_text_are_the_same_number() {
    assert_eq!(auth_users_mask(), AUTH_USERS_MASK);
}

#[test]
fn split_multi_sz_parses_double_null_list() {
    // "C:\\\0X:\\\0\0"
    let wide: Vec<u16> = "C:\\\u{0}X:\\\u{0}\u{0}".encode_utf16().collect();
    assert_eq!(
        split_multi_sz(&wide),
        vec!["C:\\".to_string(), "X:\\".to_string()]
    );
}

#[test]
fn a_list_without_its_end_keeps_what_is_complete() {
    let wide: Vec<u16> = "C:\\\u{0}X:\\".encode_utf16().collect();
    assert_eq!(split_multi_sz(&wide), vec!["C:\\".to_string()]);
    assert!(split_multi_sz(&[]).is_empty());
    assert!(split_multi_sz(&[0, 0x41, 0, 0]).is_empty());
}

#[test]
fn wide_text_ends_at_the_first_nul() {
    assert_eq!(to_wide_nul("a🎉"), vec![0x61, 0xD83C, 0xDF89, 0]);
    assert_eq!(from_wide_nul(&[0x61, 0x62, 0, 0x63]), "ab");
    assert_eq!(from_wide_nul(&[0x61, 0xD800]), "a\u{FFFD}");
    assert_eq!(take_name(&[0x61, 0xD800, 0, 1]), vec![0x61, 0xD800]);
    assert_eq!(find_nul(&[1, 2, 3]), 3);
    assert_eq!(find_nul(&[1, 0, 3]), 1);
}

#[test]
fn inputs_are_byte_exact() {
    let mut want = Vec::new();
    want.extend_from_slice(&7u64.to_le_bytes());
    want.extend_from_slice(&0i64.to_le_bytes());
    want.extend_from_slice(&i64::MAX.to_le_bytes());
    assert_eq!(enum_input(7), want);

    let mut want = Vec::new();
    want.extend_from_slice(&(-5i64).to_le_bytes());
    want.extend_from_slice(&0xFFFF_FFFFu32.to_le_bytes());
    want.extend_from_slice(&0u32.to_le_bytes());
    want.extend_from_slice(&0u64.to_le_bytes());
    want.extend_from_slice(&1u64.to_le_bytes());
    want.extend_from_slice(&9u64.to_le_bytes());
    assert_eq!(read_input(-5, 9, u32::MAX, 1), want);

    let mut want = Vec::new();
    want.extend_from_slice(&64u64.to_le_bytes());
    want.extend_from_slice(&8u64.to_le_bytes());
    assert_eq!(create_input(64, 8), want);

    let mut want = Vec::new();
    want.extend_from_slice(&2u32.to_le_bytes());
    want.extend_from_slice(&0x37u32.to_le_bytes());
    want.extend_from_slice(&3u32.to_le_bytes());
    want.extend_from_slice(&0u32.to_le_bytes());
    want.extend_from_slice(&4u64.to_le_bytes());
    want.extend_from_slice(&5u64.to_le_bytes());
    assert_eq!(layout_input(0x36, true, 3, 2, 4, 5), want);
    assert_eq!(all_files_input(0x36, false)[4..8], 0x36u32.to_le_bytes());
    assert_eq!(all_files_input(0x36, false), layout_input(0x36, false, 0, 0, 0, 0));
}

#[test]
fn errors_in_words() {
    let e = WinError { code: 5, context: "CreateFileW" };
    assert_eq!(e.message(), "CreateFileW failed: Win32 error 5");
}

#[test]
fn the_end_is_no_error() {
    assert_eq!(bytes_or_end(Ok(12), "X").expect("bytes"), Some(12));
    assert_eq!(bytes_or_end(Err(ERROR_HANDLE_EOF), "X").expect("end"), None);
    let e = bytes_or_end(Err(87), "X").expect_err("failed");
    assert_eq!((e.code, e.context), (87, "X"));
}

#[test]
fn the_journal_is_read_from_its_answer() {
    let mut b = Vec::new();
    b.extend_from_slice(&0xABCDu64.to_le_bytes());
    b.extend_from_slice(&10i64.to_le_bytes());
    b.extend_from_slice(&20i64.to_le_bytes());
    b.extend_from_slice(&(-1i64).to_le_bytes());
    b.extend_from_slice(&40i64.to_le_bytes());
    b.extend_from_slice(&50u64.to_le_bytes());
    b.extend_from_slice(&60u64.to_le_bytes());
    assert_eq!(b.len(), JOURNAL_DATA_LEN);
    match journal_state(Ok(&b)).expect("active") {
        JournalQuery::Active(info) => {
            assert_eq!(info.journal_id, 0xABCD);
            assert_eq!(info.first_usn, 10);
            assert_eq!(info.next_usn, 20);
            assert_eq!(info.lowest_valid_usn, -1);
            assert_eq!(info.max_usn, 40);
            assert_eq!(info.maximum_size, 50);
        }
        _ => panic!("the journal is active"),
    }
    assert!(matches!(
        journal_state(Err(ERROR_JOURNAL_NOT_ACTIVE)),
        Ok(JournalQuery::NotActive)
    ));
    assert!(matches!(
        journal_state(Err(ERROR_JOURNAL_DELETE_IN_PROGRESS)),
        Ok(JournalQuery::DeleteInProgress)
    ));
    let e = journal_state(Err(ERROR_JOURNAL_ENTRY_DELETED)).expect_err("failed");
    assert_eq!((e.code, e.context), (1181, "FSCTL_QUERY_USN_JOURNAL"));
}

fn name(s: &str) -> LinkEvent {
    let mut units: Vec<u16> = s.encode_utf16().collect();
    units.push(0);
    units.resize(16, 0x58);
    LinkEvent::Name(units)
}

#[test]
fn links_are_walked_to_their_end() {
    let mut w = LinkWalk::new();
    assert_eq!(w.action(), LinkAction::FindFirst(NAME_BUF_UNITS));
    w.step(&LinkEvent::Failed { code: ERROR_MORE_DATA, needed: 900 });
    assert_eq!(w.action(), LinkAction::FindFirst(900));
    w.step(&name("a"));
    assert_eq!(w.action(), LinkAction::FindNext(900));
    w.step(&name("b"));
    w.step(&LinkEvent::Failed { code: ERROR_HANDLE_EOF, needed: 0 });
    assert_eq!(w.action(), LinkAction::Close);
    assert_eq!(w.finish(), Some(vec![vec![0x61], vec![0x62]]));
}

#[test]
fn a_file_that_is_gone_has_no_links() {
    let mut w = LinkWalk::new();
    w.step(&LinkEvent::Failed { code: 2, needed: 0 });
    assert_eq!(w.action(), LinkAction::GiveUp);
    assert_eq!(w.finish(), None);
    let mut w = LinkWalk::new();
    w.step(&LinkEvent::Failed { code: ERROR_MORE_DATA, needed: 900 });
    w.step(&LinkEvent::Failed { code: ERROR_MORE_DATA, needed: 901 });
    assert_eq!(w.action(), LinkAction::GiveUp);
}

#[test]
fn a_walk_along_links_is_bounded() {
    let mut w = LinkWalk::new();
    let mut steps: usize = 0;
    while let LinkAction::FindFirst(_) | LinkAction::FindNext(_) = w.action() {
        w.step(&name("x"));
        steps += 1;
    }
    assert_eq!(steps, MAX_LINKS);
    assert_eq!(w.finish().expect("links").len(), MAX_LINKS);
}

#[test]
fn a_further_name_may_need_a_larger_buffer_once() {
    let mut w = LinkWalk::new();
    w.step(&name("a"));
    w.step(&LinkEvent::Failed { code: ERROR_MORE_DATA, needed: 700 });
    assert_eq!(w.action(), LinkAction::FindNext(700));
    w.step(&name("b"));
    w.step(&LinkEvent::Failed { code: ERROR_HANDLE_EOF, needed: 0 });
    assert_eq!(w.action(), LinkAction::Close);
    assert_eq!(w.finish(), Some(vec![vec![0x61], vec![0x62]]));
}

#[test]
fn a_search_that_breaks_off_tells_no_links() {
    // The larger buffer does not help.
    let mut w = LinkWalk::new();
    w.step(&name("a"));
    w.step(&LinkEvent::Failed { code: ERROR_MORE_DATA, needed: 700 });
    w.step(&LinkEvent::Failed { code: ERROR_MORE_DATA, needed: 701 });
    assert_eq!(w.action(), LinkAction::Close);
    assert_eq!(w.finish(), None);
    // Any other error.
    let mut w = LinkWalk::new();
    w.step(&name("a"));
    w.step(&name("b"));
    w.step(&LinkEvent::Failed { code: 2, needed: 0 });
    assert_eq!(w.action(), LinkAction::Close);
    assert_eq!(w.finish(), None);
}

#[test]
fn the_final_path_must_fit() {
    assert_eq!(final_path_units(0, 0), None);
    assert_eq!(final_path_units(10, 0), None);
    assert_eq!(final_path_units(10, 10), None);
    assert_eq!(final_path_units(10, 9), Some(10));
}

#[test]
fn rights_are_held_only_if_the_last_error_says_so() {
    assert_eq!(volume_privileges(), ["SeBackupPrivilege", "SeManageVolumePrivilege"]);
    assert!(privilege_outcome(true, 0).is_ok());
    let e = privilege_outcome(true, ERROR_NOT_ALL_ASSIGNED).expect_err("not held");
    assert_eq!(e.context, "AdjustTokenPrivileges: privilege not held");
    let e = privilege_outcome(false, 5).expect_err("failed");
    assert_eq!((e.code, e.context), (5, "AdjustTokenPrivileges"));
}

#[test]
fn the_working_set_has_no_upper_limit() {
    let (low, high, flags) = pinned_limits(1000);
    assert_eq!((low, high), (1000, 2000));
    assert_eq!(
        flags,
        QUOTA_LIMITS_HARDWS_MIN_ENABLE | QUOTA_LIMITS_HARDWS_MAX_DISABLE
    );
    assert_eq!(flags & 0x4, 0);
    assert_eq!(pinned_limits(usize::MAX).1, usize::MAX);
    assert_eq!(SelfMemory::default(), SelfMemory { working_set: 0, private_bytes: 0 });
}

#[test]
fn the_pipe_is_described() {
    assert_eq!(pipe_sddl(), "D:(A;;GA;;;SY)(A;;GA;;;BA)(A;;0x12019b;;;AU)");
}

#[test]
fn an_owner_is_trusted_only_if_it_is_known() {
    assert_eq!(first_trust_step(false), TrustStep::NotTrusted);
    assert_eq!(first_trust_step(true), TrustStep::Compare(0));
    assert_eq!(next_trust_step(0, OwnerCheck::Same), TrustStep::Trusted);
    assert_eq!(next_trust_step(0, OwnerCheck::Differs), TrustStep::Compare(1));
    assert_eq!(next_trust_step(1, OwnerCheck::Differs), TrustStep::NotTrusted);
    assert_eq!(next_trust_step(1, OwnerCheck::Failed(7)), TrustStep::Failed(7));
}

#[test]
fn size_and_time_are_put_together() {
    let s = stat_of(1, 2, 3, 4, 0x10);
    assert_eq!(s.size, 0x1_0000_0002);
    assert_eq!(s.mtime_ft, 0x3_0000_0004);
    assert!(s.is_dir);
    assert_eq!(stat_of(0, 0, u32::MAX, u32::MAX, 0).mtime_ft, -1);
}

#[test]
fn volumes_are_told_apart() {
    let guid: Vec<u16> = "\\\\?\\Volume{x}\\\u{0}junk".encode_utf16().collect();
    let ntfs: Vec<u16> = "NTFS\u{0}".encode_utf16().collect();
    let fat: Vec<u16> = "FAT32\u{0}".encode_utf16().collect();
    let v = classify_volume(&guid, 3, Some(&ntfs), vec!["C:\\".to_string()]);
    assert_eq!(v.guid_path, "\\\\?\\Volume{x}\\");
    assert_eq!(v.mounts, vec!["C:\\".to_string()]);
    assert!(v.is_fixed && v.is_ntfs);
    let v = classify_volume(&guid, 2, Some(&fat), vec![]);
    assert!(!v.is_fixed && !v.is_ntfs);
    assert!(!classify_volume(&guid, 3, None, vec![]).is_ntfs);
    let units = device_path("\\\\?\\Volume{x}\\");
    assert_eq!(from_wide_nul(&units), "\\\\?\\Volume{x}");
    assert_eq!(device_path("C:"), vec![0x43, 0x3A, 0]);
}

#[test]
fn mount_points_are_asked_for_at_most_twice() {
    assert_eq!(after_mount_query(None, 0, false), MountStep::Take);
    assert_eq!(
        after_mount_query(Some(ERROR_MORE_DATA), 99, false),
        MountStep::Again(99)
    );
    assert_eq!(
        after_mount_query(Some(ERROR_MORE_DATA), 99, true),
        MountStep::Nothing
    );
    assert_eq!(after_mount_query(Some(5), 0, false), MountStep::Nothing);
}
