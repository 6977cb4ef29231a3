//! How a run of the client goes.

use crate::cli::client::ClientError;
use crate::cli::session;
use crate::cli::session::{Action, Event, State};
use crate::escompat::argv::EsPlan;
use crate::proto::types::Response;
use vstd::prelude::*;

verus! {

/// The run goes on with the action, says nothing, and keeps what it has.
pub open spec fn quietly(s: State, r: (State, Seq<Seq<char>>), action: Action) -> bool {
    &&& r.0.action == action
    &&& r.0.attempts == s.attempts
    &&& r.0.scope == s.scope
    &&& r.0.results == s.results
    &&& r.0.status == s.status
    &&& r.1.len() == 0
}

/// The run ends with the exit code and the lines.
pub open spec fn ended(r: (State, Seq<Seq<char>>), code: u8, lines: Seq<Seq<char>>) -> bool {
    r.0.action == Action::Exit(code) && r.1 == lines
}

/// What is asked for first: the status if the plan wants it, else the query,
/// for which the directory of the plan, if it has one, is resolved.
pub open spec fn is_first_request(plan: EsPlan, a: Action) -> bool {
    &&& plan.status ==> a == Action::AskStatus
    &&& !plan.status && plan.scope is Some ==> a == Action::Resolve
    &&& !plan.status && plan.scope is None ==> a == Action::AskQuery
}

/// A run makes its file first, if it has one, and opens the pipe otherwise.
pub proof fn law_a_run_begins(plan: EsPlan)
    ensures
        ({
            let s = session::start(plan);
            &&& plan.export_csv is Some ==> s.action == Action::CreateFile
            &&& plan.export_csv is None ==> s.action == Action::Open
            &&& s.attempts == 0
            &&& s.scope is None
            &&& s.results is None
            &&& s.status is None
        }),
{
}

/// A file that cannot be made ends the run; else the pipe is opened.
pub proof fn law_the_file_is_needed(plan: EsPlan, s: State, e: Event)
    requires
        s.action == Action::CreateFile,
        session::answers(s.action, e),
    ensures
        e is Done ==> quietly(s, session::after(plan, s, e), Action::Open),
        e matches Event::Failed { os_error: _, gone: _, cause } ==> ended(
            session::after(plan, s, e),
            5,
            seq!["goz: cannot create "@ + plan.export_csv->Some_0@ + ": "@ + cause@],
        ),
{
}

/// A pipe that is not there ends the run, a busy one is opened again, twenty
/// times, after a pause, and any other failure is told.
pub proof fn law_the_pipe_is_opened(plan: EsPlan, s: State, e: Event)
    requires
        s.action == Action::Open,
        session::answers(s.action, e),
    ensures
        ({
            let r = session::after(plan, s, e);
            match e {
                Event::Failed { os_error, gone: _, cause } => if os_error == Some(2i32) || os_error
                    == Some(3i32) {
                    ended(
                        r,
                        8,
                        seq![
                            "Error 8: Everything IPC window not found. Please make sure Everything is running."@,
                            "goz: the gozd daemon is not running (start it with `gozd run`)."@,
                        ],
                    )
                } else if os_error == Some(231i32) && s.attempts < 20 {
                    r.0 == (State { action: Action::Pause, attempts: s.attempts + 1, ..s })
                        && r.1.len() == 0
                } else {
                    r.0.action == Action::Exit(7) && r.1.len() == 1 && r.1[0] == "goz: "@ + (
                    "cannot open "@ + crate::proto::types::PIPE_NAME@ + ": "@ + cause@)
                },
                _ => quietly(s, r, r.0.action) && (if plan.insecure_no_server_check {
                    is_first_request(plan, r.0.action)
                } else {
                    r.0.action == Action::CheckOwner
                }),
            }
        }),
{
}

/// After a pause the pipe is opened again.
pub proof fn law_a_pause_ends(plan: EsPlan, s: State)
    requires
        s.action == Action::Pause,
    ensures
        quietly(s, session::after(plan, s, Event::Done), Action::Open),
{
}

/// An owner that is not known to be trusted ends the run.
pub proof fn law_the_owner_must_be_trusted(plan: EsPlan, s: State, trusted: Option<bool>)
    requires
        s.action == Action::CheckOwner,
    ensures
        ({
            let r = session::after(plan, s, Event::Owner(trusted));
            if trusted == Some(true) {
                quietly(s, r, r.0.action) && is_first_request(plan, r.0.action)
            } else {
                ended(
                    r,
                    9,
                    seq![
                        "goz: the pipe server is not the trusted gozd daemon (owner is not SYSTEM/Administrators)."@,
                        "goz: refusing to send the query. If this is expected, pass --insecure-no-server-check."@,
                    ],
                )
            }
        }),
{
}

/// The directory is sent as an absolute path, or as it stands with a warning.
pub proof fn law_the_directory_is_sent(plan: EsPlan, s: State, path: Option<String>)
    requires
        s.action == Action::Resolve,
    ensures
        ({
            let r = session::after(plan, s, Event::Resolved(path));
            &&& r.0.action == Action::AskQuery
            &&& r.0.attempts == s.attempts && r.0.results == s.results && r.0.status == s.status
            &&& path matches Some(p) ==> r.0.scope == Some(p@) && r.1.len() == 0
            &&& path is None ==> r.0.scope == Some(plan.scope->Some_0@) && r.1 == seq![
                "goz: warning: could not resolve '"@ + plan.scope->Some_0@
                    + "' to an absolute path; scope may not match"@,
            ]
        }),
{
}

/// How a request that came to nothing ends the run.
pub open spec fn unanswered(r: (State, Seq<Seq<char>>), e: ClientError) -> bool {
    match e {
        ClientError::Unreachable => ended(
            r,
            8,
            seq![
                "Error 8: Everything IPC window not found. Please make sure Everything is running."@,
            ],
        ),
        ClientError::Untrusted => ended(r, 9, seq!["goz: pipe server not trusted"@]),
        ClientError::Protocol(m) => ended(r, 7, seq!["goz: "@ + m@]),
    }
}

/// Results are kept and written where the plan says, with a warning where they
/// may be incomplete. A refusal, another reply and no reply end the run.
pub proof fn law_a_query_is_answered(
    plan: EsPlan,
    s: State,
    reply: Result<Response, ClientError>,
)
    requires
        s.action == Action::AskQuery,
    ensures
        ({
            let r = session::after(plan, s, Event::Replied(reply));
            match reply {
                Ok(Response::Results(results)) => {
                    &&& r.0.results == Some(results)
                    &&& r.0.attempts == s.attempts && r.0.scope == s.scope && r.0.status == s.status
                    &&& r.0.action == (if plan.export_csv is Some {
                        Action::WriteFile
                    } else if plan.json {
                        Action::WriteJson
                    } else {
                        Action::WriteList
                    })
                    &&& !results.volumes_incomplete ==> r.1.len() == 0
                    &&& results.volumes_incomplete ==> r.1 == seq![
                        "goz: warning: some volumes are still indexing or unavailable; results may be incomplete"@,
                    ]
                },
                Ok(Response::Error { code: _, message }) => ended(r, 4, seq!["goz: "@ + message@]),
                Ok(_) => ended(r, 7, seq!["goz: unexpected reply from daemon"@]),
                Err(e) => unanswered(r, e),
            }
        }),
{
}

/// The status is kept and shown, and the error stream is told where it is not
/// complete. Another reply and no reply end the run.
pub proof fn law_the_status_is_answered(
    plan: EsPlan,
    s: State,
    reply: Result<Response, ClientError>,
)
    requires
        s.action == Action::AskStatus,
    ensures
        ({
            let r = session::after(plan, s, Event::Replied(reply));
            match reply {
                Ok(Response::Status(status)) => {
                    &&& r.0.status == Some(status)
                    &&& r.0.action == Action::ShowStatus
                    &&& r.1.len() == 0
                    &&& session::after(plan, r.0, Event::Done).0.action == Action::Exit(0)
                    &&& session::after(plan, r.0, Event::Done).1 == (
                    if status.volumes_incomplete {
                        seq!["goz: some volumes are not fully live"@]
                    } else {
                        Seq::empty()
                    })
                },
                Ok(_) => ended(r, 7, seq!["goz: unexpected reply to status"@]),
                Err(e) => unanswered(r, e),
            }
        }),
{
}

/// What was written ends the run well, and so does a list whose reader has gone
/// away. What cannot be written is told.
pub proof fn law_writing_ends_the_run(plan: EsPlan, s: State, e: Event)
    requires
        s.action == Action::WriteFile || s.action == Action::WriteJson || s.action
            == Action::WriteList,
        session::answers(s.action, e),
    ensures
        ({
            let r = session::after(plan, s, e);
            match e {
                Event::Failed { os_error: _, gone, cause } => if s.action == Action::WriteFile {
                    ended(r, 5, seq!["goz: writing export CSV failed: "@ + cause@])
                } else if s.action == Action::WriteJson {
                    ended(r, 7, seq!["goz: JSON encoding failed: "@ + cause@])
                } else if gone {
                    quietly(s, r, Action::Exit(0))
                } else {
                    ended(r, 5, seq!["goz: writing results failed: "@ + cause@])
                },
                _ => quietly(s, r, Action::Exit(0)),
            }
        }),
{
}

} // verus!
