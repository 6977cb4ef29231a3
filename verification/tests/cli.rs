use goz::cli::client::{
    after_open_error, before_read, may_send, open_failure, read_failure, ClientError, Exchange,
    OpenStep, Progress, ReadStep, BUSY_ATTEMPTS,
};
use goz::cli::run::{
    build_query, connect_failure, create_failure, export_failure, format_date_local, json_failure,
    list_failure, output_of, query_reply, render_csv, render_list, render_rows, results_warning,
    scope_to_send, status_reply, wants_dates, Output, FIRST_MS, LAST_MS,
};
use goz::cli::session::{Action, Event, Session};
use goz::cli::status::{
    memory_totals, status_lines, status_warning, MemoryTexts, ProcessTexts,
};
use goz::escompat::{parse_argv, EsPlan};
use goz::output::unix_ms_to_filetime;
use goz::proto::{
    encode_frame, encode_response_frame, DaemonStatus, MemPair, ProtoError, QueryResults,
    RespFrame, Response, ResultItem, VolumeMemory, VolumeStatus, MAX_SERVER_FRAME,
};
use goz::types::VolumePhase;
use jiff::tz::{Offset, TimeZone};

fn plan(args: &[&str]) -> EsPlan {
    let args: Vec<String> = args.iter().map(|s| s.to_string()).collect();
    parse_argv(&args).expect("a plan")
}

fn item(path: &str) -> ResultItem {
    ResultItem {
        path: path.to_string(),
        path_u16: None,
        size: Some(3),
        mtime_ft: Some(unix_ms_to_filetime(951_782_400_000)),
        is_dir: false,
    }
}

fn page(paths: &[&str], more: bool) -> QueryResults {
    QueryResults {
        total: 9,
        items: paths.iter().map(|p| item(p)).collect(),
        more,
        volumes_incomplete: false,
        metadata_pending: false,
        generation: 1,
    }
}

#[test]
fn a_busy_pipe_is_opened_again() {
    assert_eq!(after_open_error(Some(2), 0), OpenStep::Unreachable);
    assert_eq!(after_open_error(Some(3), 0), OpenStep::Unreachable);
    assert_eq!(after_open_error(Some(231), 0), OpenStep::Retry);
    assert_eq!(after_open_error(Some(231), BUSY_ATTEMPTS - 1), OpenStep::Retry);
    assert_eq!(after_open_error(Some(231), BUSY_ATTEMPTS), OpenStep::Fail);
    assert_eq!(after_open_error(Some(5), 0), OpenStep::Fail);
    assert_eq!(after_open_error(None, 0), OpenStep::Fail);
    assert_eq!(
        open_failure("access denied"),
        ClientError::Protocol("cannot open \\\\.\\pipe\\goz-v1: access denied".to_string())
    );
}

#[test]
fn nothing_is_sent_to_a_server_that_is_not_known() {
    assert_eq!(may_send(false, Some(true)), Ok(()));
    assert_eq!(may_send(false, Some(false)), Err(ClientError::Untrusted));
    assert_eq!(may_send(false, None), Err(ClientError::Untrusted));
    assert_eq!(may_send(true, None), Ok(()));
}

#[test]
fn waiting_ends_at_the_deadline() {
    assert_eq!(before_read(true, Some(9)), ReadStep::Late);
    assert_eq!(before_read(false, None), ReadStep::Closed);
    assert_eq!(before_read(false, Some(0)), ReadStep::Wait);
    assert_eq!(before_read(false, Some(1)), ReadStep::Read);
    assert_eq!(
        read_failure(ReadStep::Late),
        Some(ClientError::Protocol("daemon did not reply in time".to_string()))
    );
    assert_eq!(
        read_failure(ReadStep::Closed),
        Some(ClientError::Protocol("daemon closed the connection".to_string()))
    );
    assert_eq!(read_failure(ReadStep::Wait), None);
    assert_eq!(read_failure(ReadStep::Read), None);
}

/// The pages of a reply come out as one page.
#[test]
fn pages_make_one() {
    let mut wire = Vec::new();
    for p in [page(&["a", "b"], true), page(&[], true), page(&["c"], false)] {
        assert!(encode_response_frame(&RespFrame::Results(p), &mut wire));
    }
    let mut x = Exchange::new();
    let mut done = None;
    for chunk in wire.chunks(5) {
        assert_eq!(done, None);
        x.feed(chunk);
        match x.advance().expect("well-formed") {
            Progress::NeedBytes => {}
            Progress::Results(p) => done = Some(p),
            Progress::Document(_) => panic!("no document was sent"),
        }
    }
    assert_eq!(done, Some(page(&["a", "b", "c"], false)));
    assert_eq!(x.advance(), Ok(Progress::NeedBytes));
}

#[test]
fn pages_may_come_as_documents() {
    let mut x = Exchange::new();
    assert_eq!(x.accept(page(&["a"], true)), None);
    assert_eq!(x.accept(page(&["b"], false)), Some(page(&["a", "b"], false)));
    assert_eq!(x.accept(page(&["c"], false)), Some(page(&["c"], false)));
}

#[test]
fn replies_that_make_no_sense() {
    let mut wire = Vec::new();
    encode_frame(&[], &mut wire);
    encode_frame(&[7], &mut wire);
    encode_frame(&[0, 0x7B, 0x7D], &mut wire);
    let mut x = Exchange::new();
    assert_eq!(x.advance(), Ok(Progress::NeedBytes));
    x.feed(&wire);
    assert_eq!(
        x.advance(),
        Err(ClientError::Protocol("empty response frame".to_string()))
    );
    assert_eq!(
        x.advance(),
        Err(ClientError::Protocol("unknown response frame tag 7".to_string()))
    );
    assert_eq!(x.advance(), Ok(Progress::Document(vec![0x7B, 0x7D])));
    x.feed(&(MAX_SERVER_FRAME + 1).to_le_bytes());
    let e = ClientError::Protocol("frame of 16777217 bytes exceeds cap 16777216".to_string());
    assert_eq!(x.advance(), Err(e.clone()));
    x.feed(&wire);
    assert_eq!(x.advance(), Err(e));
}

/// es exit code 5 for an export path that cannot be made.
#[test]
fn failures_say_what_happened() {
    let f = create_failure("Q:\\x\\out.csv", "no such path");
    assert_eq!(f.code, 5);
    assert_eq!(f.lines, vec!["goz: cannot create Q:\\x\\out.csv: no such path"]);
    let f = export_failure("disk full");
    assert_eq!(f.code, 5);
    assert_eq!(f.lines, vec!["goz: writing export CSV failed: disk full"]);
    let f = json_failure("x");
    assert_eq!(f.code, 7);
    assert_eq!(f.lines, vec!["goz: JSON encoding failed: x"]);
    assert_eq!(list_failure(true, "gone"), None);
    let f = list_failure(false, "disk full").expect("a failure");
    assert_eq!(f.code, 5);
    assert_eq!(f.lines, vec!["goz: writing results failed: disk full"]);
}

#[test]
fn connecting_can_fail_in_three_ways() {
    let f = connect_failure(&ClientError::Unreachable);
    assert_eq!(f.code, 8);
    assert_eq!(
        f.lines,
        vec![
            "Error 8: Everything IPC window not found. Please make sure Everything is running.",
            "goz: the gozd daemon is not running (start it with `gozd run`).",
        ]
    );
    let f = connect_failure(&ClientError::Untrusted);
    assert_eq!(f.code, 9);
    assert_eq!(f.lines.len(), 2);
    let f = connect_failure(&ClientError::Protocol("m".to_string()));
    assert_eq!((f.code, f.lines), (7, vec!["goz: m".to_string()]));
}

#[test]
fn replies_to_a_query() {
    assert_eq!(query_reply(Ok(Response::Results(page(&["a"], false)))), Ok(page(&["a"], false)));
    let f = query_reply(Ok(Response::Error {
        code: ProtoError::BadQuery,
        message: "unbalanced quote".to_string(),
    }))
    .expect_err("refused");
    assert_eq!((f.code, f.lines), (4, vec!["goz: unbalanced quote".to_string()]));
    let f = query_reply(Ok(Response::Hello {
        proto: 1,
        server: "s".to_string(),
        ready: true,
    }))
    .expect_err("unexpected");
    assert_eq!((f.code, f.lines), (7, vec!["goz: unexpected reply from daemon".to_string()]));
    let f = query_reply(Err(ClientError::Unreachable)).expect_err("unreachable");
    assert_eq!((f.code, f.lines.len()), (8, 1));
    let f = query_reply(Err(ClientError::Untrusted)).expect_err("untrusted");
    assert_eq!((f.code, f.lines), (9, vec!["goz: pipe server not trusted".to_string()]));
    let f = status_reply(Ok(Response::Results(page(&[], false)))).expect_err("unexpected");
    assert_eq!((f.code, f.lines), (7, vec!["goz: unexpected reply to status".to_string()]));
    assert_eq!(status_reply(Ok(Response::Status(status()))), Ok(status()));
}

#[test]
fn a_plan_becomes_a_request() {
    let p = plan(&["foo", "-n", "5", "-sort", "size", "-case"]);
    let q = build_query(&p, Some("C:\\x".to_string()));
    assert_eq!(q.query, "foo");
    assert_eq!(q.scope, Some("C:\\x".to_string()));
    assert_eq!(q.sort, p.sort);
    assert_eq!((q.offset, q.limit), (0, Some(5)));
    assert!(q.want_size && q.want_mtime && q.match_case);
    assert_eq!(scope_to_send("x", Some("C:\\x".to_string())), ("C:\\x".to_string(), None));
    assert_eq!(
        scope_to_send("x", None),
        (
            "x".to_string(),
            Some(
                "goz: warning: could not resolve 'x' to an absolute path; scope may not match"
                    .to_string()
            )
        )
    );
}

#[test]
fn a_named_file_comes_before_json() {
    assert_eq!(output_of(&plan(&["x"])), Output::List);
    assert_eq!(output_of(&plan(&["--json"])), Output::Json);
    assert_eq!(output_of(&plan(&["--json", "-export-csv", "o"])), Output::Csv);
    assert_eq!(results_warning(&page(&[], false)), None);
    let mut p = page(&[], false);
    p.volumes_incomplete = true;
    assert!(results_warning(&p).expect("a warning").starts_with("goz: warning: some volumes"));
}

#[test]
fn paths_are_listed_one_per_line() {
    assert_eq!(render_list(&page(&["C:\\a", "C:\\é"], false)), "C:\\a\nC:\\é\n".as_bytes());
    assert_eq!(render_list(&page(&[], false)), b"");
}

#[test]
fn dates_are_local_time() {
    let utc = TimeZone::UTC;
    let ft = unix_ms_to_filetime(951_782_400_000);
    assert_eq!(format_date_local(ft, &utc), "2000-02-29T00:00:00");
    let east = TimeZone::fixed(Offset::constant(3));
    assert_eq!(format_date_local(ft, &east), "2000-02-29T03:00:00");
    // Beyond the year 9999 nothing is printed.
    assert_eq!(format_date_local(i64::MAX, &utc), "");
    assert_ne!(format_date_local(unix_ms_to_filetime(LAST_MS), &utc), "");
    assert_eq!(format_date_local(unix_ms_to_filetime(LAST_MS + 1), &utc), "");
    assert_ne!(format_date_local(unix_ms_to_filetime(FIRST_MS), &utc), "");
    assert_eq!(format_date_local(unix_ms_to_filetime(FIRST_MS - 1), &utc), "");
    for ms in [FIRST_MS, -62_167_219_200_001, -1, LAST_MS] {
        let s = format_date_local(unix_ms_to_filetime(ms), &utc);
        assert!(s.len() == 19 || s.len() == 20, "{s}");
    }
}

#[test]
fn results_are_written_as_csv() {
    let p = plan(&["-size", "-dm", "-no-utf8-bom"]);
    assert!(wants_dates(&p));
    assert!(!wants_dates(&plan(&["-size"])));
    assert_eq!(
        render_csv(&p, &page(&["C:\\a"], false), &Some(TimeZone::UTC)),
        b"Size,Date Modified,Filename\r\n3,2000-02-29T00:00:00,\"C:\\a\"\r\n"
    );
    assert_eq!(
        render_csv(&p, &page(&["C:\\a"], false), &None),
        b"Size,Date Modified,Filename\r\n3,,\"C:\\a\"\r\n"
    );
    assert_eq!(
        render_rows(&plan(&["-dm", "-no-header"]), &page(&["C:\\a"], false), &vec![Some(
            "now".to_string()
        )]),
        b"\xEF\xBB\xBFnow,\"C:\\a\"\r\n"
    );
}

fn pair(used: u64, alloc: u64) -> MemPair {
    MemPair { used, alloc }
}

fn memory() -> VolumeMemory {
    VolumeMemory {
        entries: pair(1, 10),
        arena_raw: pair(2, 20),
        arena_folded: pair(3, 30),
        frn_map: pair(4, 40),
        name_tables: pair(5, 50),
        dir_children: pair(6, 60),
        frn_map_kind: "dense".to_string(),
    }
}

fn volume(mounts: &[&str]) -> VolumeStatus {
    VolumeStatus {
        guid: "guid".to_string(),
        mounts: mounts.iter().map(|m| m.to_string()).collect(),
        phase: VolumePhase::Live,
        entries: 1234,
        generation: 1,
        metadata_pending: false,
        placeholders_created: 0,
        delete_of_unknown: 0,
        stale_slots: 0,
        link_reconciles_dropped: 0,
        memory: None,
    }
}

fn status() -> DaemonStatus {
    DaemonStatus {
        volumes: vec![volume(&["C:\\"])],
        volumes_incomplete: false,
        process_working_set: 0,
        process_private_bytes: 0,
    }
}

fn texts(s: &str) -> ProcessTexts {
    ProcessTexts { private_bytes: s.to_string(), working_set: s.to_string() }
}

#[test]
fn a_quiet_status_is_short() {
    assert_eq!(
        status_lines(&status(), &vec![None], &texts("0.0")),
        vec![
            "gozd status: 1 volume(s)",
            "  C:\\              1234 entries  phase=live",
        ]
    );
    assert_eq!(status_warning(&status()), None);
}

#[test]
fn a_status_tells_drift_and_memory() {
    let mut s = status();
    s.volumes = vec![VolumeStatus {
        phase: VolumePhase::Failed { reason: "io".to_string() },
        metadata_pending: true,
        stale_slots: 1,
        delete_of_unknown: 2,
        placeholders_created: 3,
        link_reconciles_dropped: 4,
        memory: Some(memory()),
        ..volume(&[])
    }];
    s.process_private_bytes = 1;
    s.volumes_incomplete = true;
    let mem = MemoryTexts {
        total: "a".to_string(),
        entries: "b".to_string(),
        names: "c".to_string(),
        folded: "d".to_string(),
        frn: "e".to_string(),
        name_tables: "f".to_string(),
        dirs: "g".to_string(),
    };
    assert_eq!(
        status_lines(&s, &vec![Some(mem)], &texts("7.5")),
        vec![
            "gozd status: 1 volume(s)",
            "  guid             1234 entries  phase=failed (io)  (metadata pending)",
            "           4 hard-link change(s) not reconciled: some names may be stale",
            "           drift: 1 stale slot(s), 2 unknown delete(s), 3 placeholder(s)",
            "           mem MB used/alloc: total a  entries b  names c  folded d  frn[dense] e  \
             ntables f  dirs g",
            "  daemon: 7.5 MB private, 7.5 MB working set",
        ]
    );
    assert_eq!(status_warning(&s), Some("goz: some volumes are not fully live"));
}

#[test]
fn memory_is_added_up() {
    assert_eq!(memory_totals(&memory()), Some((21, 210)));
    let mut m = memory();
    m.entries = pair(u64::MAX, 0);
    assert_eq!(memory_totals(&m), None);
}

/// Runs a session, answering each action; returns the actions, what the error
/// stream was told and the exit code.
fn drive(
    args: &[&str],
    mut answer: impl FnMut(Action, usize) -> Event,
) -> (Vec<Action>, Vec<String>, u8) {
    let mut session = Session::new(plan(args));
    let mut actions = Vec::new();
    let mut lines = Vec::new();
    loop {
        let action = session.action();
        if let Action::Exit(code) = action {
            return (actions, lines, code);
        }
        let event = answer(action, actions.len());
        actions.push(action);
        lines.extend(session.step(event));
    }
}

fn failed(os_error: i32) -> Event {
    Event::Failed { os_error: Some(os_error), gone: false, cause: "why".to_string() }
}

/// Everything works, and the reply holds results.
fn fine(action: Action) -> Event {
    match action {
        Action::CheckOwner => Event::Owner(Some(true)),
        Action::Resolve => Event::Resolved(Some("C:\\here".to_string())),
        Action::AskQuery => Event::Replied(Ok(Response::Results(page(&["a"], false)))),
        Action::AskStatus => Event::Replied(Ok(Response::Status(status()))),
        _ => Event::Done,
    }
}

#[test]
fn a_run_that_works() {
    let (actions, lines, code) = drive(&["x"], |a, _| fine(a));
    assert_eq!(
        actions,
        vec![Action::Open, Action::CheckOwner, Action::AskQuery, Action::WriteList]
    );
    assert!(lines.is_empty());
    assert_eq!(code, 0);
    let (actions, _, code) = drive(&["x", "--json", "--insecure-no-server-check"], |a, _| fine(a));
    assert_eq!(actions, vec![Action::Open, Action::AskQuery, Action::WriteJson]);
    assert_eq!(code, 0);
    let (actions, _, code) = drive(&["--status"], |a, _| fine(a));
    assert_eq!(
        actions,
        vec![Action::Open, Action::CheckOwner, Action::AskStatus, Action::ShowStatus]
    );
    assert_eq!(code, 0);
    let (actions, _, code) = drive(&["-export-csv", "o", "-path", "here", "x"], |a, _| fine(a));
    assert_eq!(
        actions,
        vec![
            Action::CreateFile,
            Action::Open,
            Action::CheckOwner,
            Action::Resolve,
            Action::AskQuery,
            Action::WriteFile,
        ]
    );
    assert_eq!(code, 0);
}

/// The export file is made up front, so a server that cannot be reached leaves
/// it empty.
#[test]
fn the_file_is_made_before_the_pipe_is_opened() {
    let (actions, lines, code) = drive(&["-export-csv", "o"], |a, _| match a {
        Action::Open => failed(2),
        other => fine(other),
    });
    assert_eq!(actions, vec![Action::CreateFile, Action::Open]);
    assert_eq!(lines.len(), 2);
    assert_eq!(code, 8);
    let (actions, lines, code) = drive(&["-export-csv", "o"], |a, _| match a {
        Action::CreateFile => failed(5),
        other => fine(other),
    });
    assert_eq!(actions, vec![Action::CreateFile]);
    assert_eq!(lines, vec!["goz: cannot create o: why"]);
    assert_eq!(code, 5);
}

#[test]
fn nothing_is_sent_to_a_stranger() {
    for owner in [None, Some(false)] {
        let (actions, lines, code) = drive(&["x"], |a, _| match a {
            Action::CheckOwner => Event::Owner(owner),
            other => fine(other),
        });
        assert_eq!(actions, vec![Action::Open, Action::CheckOwner]);
        assert_eq!(lines.len(), 2);
        assert_eq!(code, 9);
    }
}

#[test]
fn a_run_ends() {
    let (actions, lines, code) = drive(&["x"], |a, _| match a {
        Action::Open => failed(231),
        other => fine(other),
    });
    assert_eq!(actions.len(), 1 + 2 * BUSY_ATTEMPTS as usize);
    assert_eq!(lines, vec!["goz: cannot open \\\\.\\pipe\\goz-v1: why"]);
    assert_eq!(code, 7);
    // Busy at first, then free.
    let (_, _, code) = drive(&["x"], |a, n| match a {
        Action::Open if n < 4 => failed(231),
        other => fine(other),
    });
    assert_eq!(code, 0);
}

#[test]
fn a_run_tells_what_went_wrong() {
    let (_, lines, code) = drive(&["-path", "here", "x"], |a, _| match a {
        Action::Resolve => Event::Resolved(None),
        Action::WriteList => failed(112),
        other => fine(other),
    });
    assert_eq!(
        lines,
        vec![
            "goz: warning: could not resolve 'here' to an absolute path; scope may not match",
            "goz: writing results failed: why",
        ]
    );
    assert_eq!(code, 5);
    let (_, lines, code) = drive(&["x"], |a, _| match a {
        Action::WriteList => Event::Failed { os_error: None, gone: true, cause: "x".to_string() },
        other => fine(other),
    });
    assert!(lines.is_empty());
    assert_eq!(code, 0);
    let (_, lines, code) = drive(&["--status"], |a, _| match a {
        Action::AskStatus => {
            let mut s = status();
            s.volumes_incomplete = true;
            Event::Replied(Ok(Response::Status(s)))
        }
        other => fine(other),
    });
    assert_eq!(lines, vec!["goz: some volumes are not fully live"]);
    assert_eq!(code, 0);
    let (_, lines, code) = drive(&["x"], |a, _| match a {
        Action::AskQuery => {
            let mut p = page(&["a"], false);
            p.volumes_incomplete = true;
            Event::Replied(Ok(Response::Results(p)))
        }
        other => fine(other),
    });
    assert_eq!(lines.len(), 1);
    assert!(lines[0].starts_with("goz: warning: some volumes"));
    assert_eq!(code, 0);
    let (_, _, code) = drive(&["x", "--json"], |a, _| match a {
        Action::WriteJson => failed(0),
        other => fine(other),
    });
    assert_eq!(code, 7);
}

#[test]
fn a_session_hands_out_what_it_knows() {
    let mut s = Session::new(plan(&["-path", "here", "x", "-n", "3"]));
    assert_eq!(s.results(), None);
    assert_eq!(s.status(), None);
    while s.action() != Action::WriteList {
        let event = fine(s.action());
        s.step(event);
    }
    assert_eq!(s.results(), Some(&page(&["a"], false)));
    let q = s.request();
    assert_eq!(q.scope, Some("C:\\here".to_string()));
    assert_eq!((q.query.as_str(), q.limit), ("x", Some(3)));
}
