//! A run of the client, step by step.
//!
//! The file to write to is made first, then the pipe is opened and its owner
//! checked, and only then something is sent.

use crate::cli::client;
use crate::cli::client::{after_open_error, may_send, open_failure, ClientError, OpenStep};
use crate::cli::run;
use crate::cli::run::{
    build_query, connect_failure, create_failure, export_failure, json_failure, list_failure,
    output_of, query_reply, results_warning, scope_to_send, status_reply, Failure, FailureModel,
    Output,
};
use crate::cli::status;
use crate::cli::status::status_warning;
use crate::escompat::argv::EsPlan;
use crate::proto::types::{DaemonStatus, QueryRequest, QueryResults, Response, PIPE_NAME};
use vstd::prelude::*;
use vstd::string::StringExecFns;

verus! {

/// What to do.
#[derive(Clone, Copy, Debug, PartialEq, Eq, Structural)]
pub enum Action {
    /// Make the file that the plan names.
    CreateFile,
    /// Open the pipe.
    Open,
    /// Wait a moment before the pipe is opened again.
    Pause,
    /// Find out whether the owner of the pipe is trusted.
    CheckOwner,
    /// Find the absolute path of the plan's directory.
    Resolve,
    /// Ask the server for its status.
    AskStatus,
    /// Send the query.
    AskQuery,
    /// Print the status.
    ShowStatus,
    /// Write the results to the file, as CSV.
    WriteFile,
    /// Print the results as JSON.
    WriteJson,
    /// Print the paths of the results.
    WriteList,
    /// End with this exit code.
    Exit(u8),
}

/// What came of it.
#[derive(Debug, PartialEq)]
pub enum Event {
    /// It was done.
    Done,
    /// It failed: the error code of the system, whether a reader has gone
    /// away, and the error in words.
    Failed { os_error: Option<i32>, gone: bool, cause: String },
    /// Whether the owner is trusted, if that could be found out.
    Owner(Option<bool>),
    /// The absolute path, if there is one.
    Resolved(Option<String>),
    Replied(Result<Response, ClientError>),
}

/// A run of the client.
#[verifier::ext_equal]
pub ghost struct State {
    pub action: Action,
    /// How often the pipe was opened again.
    pub attempts: int,
    /// The directory as it is sent.
    pub scope: Option<Seq<char>>,
    pub results: Option<QueryResults>,
    pub status: Option<DaemonStatus>,
}

/// Where a run begins.
pub open spec fn start(plan: EsPlan) -> State {
    State {
        action: if plan.export_csv is Some {
            Action::CreateFile
        } else {
            Action::Open
        },
        attempts: 0,
        scope: None,
        results: None,
        status: None,
    }
}

/// The action may fail.
pub open spec fn can_fail(a: Action) -> bool {
    match a {
        Action::CreateFile | Action::Open | Action::WriteFile | Action::WriteJson
        | Action::WriteList => true,
        _ => false,
    }
}

/// The event answers the action.
pub open spec fn answers(a: Action, e: Event) -> bool {
    match a {
        Action::CreateFile | Action::Open | Action::WriteFile | Action::WriteJson
        | Action::WriteList => e is Done || e is Failed,
        Action::Pause | Action::ShowStatus => e is Done,
        Action::CheckOwner => e is Owner,
        Action::Resolve => e is Resolved,
        Action::AskStatus | Action::AskQuery => e is Replied,
        Action::Exit(_) => false,
    }
}

/// The run goes on with an action and nothing to say.
pub open spec fn goes_on(s: State, action: Action) -> (State, Seq<Seq<char>>) {
    (State { action, ..s }, seq![])
}

/// The run ends with an exit code and something to say.
pub open spec fn ends(s: State, f: FailureModel) -> (State, Seq<Seq<char>>) {
    (State { action: Action::Exit(f.code), ..s }, f.lines)
}

/// The run ends well.
pub open spec fn succeeds(s: State) -> (State, Seq<Seq<char>>) {
    goes_on(s, Action::Exit(0))
}

/// What to do once the server is known to be the right one.
pub open spec fn first_request(plan: EsPlan) -> Action {
    if plan.status {
        Action::AskStatus
    } else if plan.scope is Some {
        Action::Resolve
    } else {
        Action::AskQuery
    }
}

/// What to do with the results.
pub open spec fn writing(plan: EsPlan) -> Action {
    if plan.export_csv is Some {
        Action::WriteFile
    } else if plan.json {
        Action::WriteJson
    } else {
        Action::WriteList
    }
}

/// One line or none.
pub open spec fn maybe(cond: bool, line: Seq<char>) -> Seq<Seq<char>> {
    if cond {
        seq![line]
    } else {
        seq![]
    }
}

/// After the pipe could not be opened.
pub open spec fn unopened(s: State, os_error: Option<i32>, cause: Seq<char>) -> (
    State,
    Seq<Seq<char>>,
) {
    match os_error {
        Some(code) => if code == client::ERROR_FILE_NOT_FOUND || code
            == client::ERROR_PATH_NOT_FOUND {
            ends(s, run::connect_model(ClientError::Unreachable))
        } else if code == client::ERROR_PIPE_BUSY && s.attempts < client::BUSY_ATTEMPTS {
            goes_on(State { attempts: s.attempts + 1, ..s }, Action::Pause)
        } else {
            ends(s, unopenable(cause))
        },
        None => ends(s, unopenable(cause)),
    }
}

/// The pipe is there and cannot be opened.
pub open spec fn unopenable(cause: Seq<char>) -> FailureModel {
    FailureModel {
        lines: seq!["goz: "@ + ("cannot open "@ + PIPE_NAME@ + ": "@ + cause)],
        code: run::EXIT_PROTOCOL,
    }
}

/// A reply to a query was taken.
pub open spec fn query_taken(
    plan: EsPlan,
    s: State,
    reply: Result<Response, ClientError>,
) -> (State, Seq<Seq<char>>) {
    match reply {
        Ok(Response::Results(results)) => (
            State { action: writing(plan), results: Some(results), ..s },
            maybe(results.volumes_incomplete, run::INCOMPLETE_TEXT@),
        ),
        Ok(Response::Error { code: _, message }) => ends(
            s,
            FailureModel { lines: seq!["goz: "@ + message@], code: run::EXIT_REFUSED },
        ),
        Ok(_) => ends(
            s,
            FailureModel {
                lines: seq!["goz: unexpected reply from daemon"@],
                code: run::EXIT_PROTOCOL,
            },
        ),
        Err(e) => ends(s, run::request_model(e)),
    }
}

/// A reply to a request for the status was taken.
pub open spec fn status_taken(s: State, reply: Result<Response, ClientError>) -> (
    State,
    Seq<Seq<char>>,
) {
    match reply {
        Ok(Response::Status(status)) => goes_on(
            State { status: Some(status), ..s },
            Action::ShowStatus,
        ),
        Ok(_) => ends(
            s,
            FailureModel {
                lines: seq!["goz: unexpected reply to status"@],
                code: run::EXIT_PROTOCOL,
            },
        ),
        Err(e) => ends(s, run::request_model(e)),
    }
}

/// The run after an event, and what the error stream is told.
pub open spec fn after(plan: EsPlan, s: State, e: Event) -> (State, Seq<Seq<char>>) {
    match s.action {
        Action::CreateFile => match e {
            Event::Failed { os_error: _, gone: _, cause } => ends(
                s,
                FailureModel {
                    lines: seq![
                        "goz: cannot create "@ + plan.export_csv->Some_0@ + ": "@ + cause@,
                    ],
                    code: run::EXIT_OUTPUT,
                },
            ),
            _ => goes_on(s, Action::Open),
        },
        Action::Open => match e {
            Event::Failed { os_error, gone: _, cause } => unopened(s, os_error, cause@),
            _ => goes_on(
                s,
                if plan.insecure_no_server_check {
                    first_request(plan)
                } else {
                    Action::CheckOwner
                },
            ),
        },
        Action::Pause => goes_on(s, Action::Open),
        Action::CheckOwner => if e == Event::Owner(Some(true)) {
            goes_on(s, first_request(plan))
        } else {
            ends(s, run::connect_model(ClientError::Untrusted))
        },
        Action::Resolve => match e {
            Event::Resolved(Some(path)) => goes_on(
                State { scope: Some(path@), ..s },
                Action::AskQuery,
            ),
            _ => (
                State {
                    action: Action::AskQuery,
                    scope: Some(plan.scope->Some_0@),
                    ..s
                },
                seq![
                    "goz: warning: could not resolve '"@ + plan.scope->Some_0@
                        + "' to an absolute path; scope may not match"@,
                ],
            ),
        },
        Action::AskStatus => status_taken(s, e->Replied_0),
        Action::AskQuery => query_taken(plan, s, e->Replied_0),
        Action::ShowStatus => (
            State { action: Action::Exit(0), ..s },
            maybe(s.status->Some_0.volumes_incomplete, status::NOT_LIVE_TEXT@),
        ),
        Action::WriteFile => match e {
            Event::Failed { os_error: _, gone: _, cause } => ends(
                s,
                FailureModel {
                    lines: seq!["goz: writing export CSV failed: "@ + cause@],
                    code: run::EXIT_OUTPUT,
                },
            ),
            _ => succeeds(s),
        },
        Action::WriteJson => match e {
            Event::Failed { os_error: _, gone: _, cause } => ends(
                s,
                FailureModel {
                    lines: seq!["goz: JSON encoding failed: "@ + cause@],
                    code: run::EXIT_PROTOCOL,
                },
            ),
            _ => succeeds(s),
        },
        Action::WriteList => match e {
            Event::Failed { os_error: _, gone, cause } => if gone {
                succeeds(s)
            } else {
                ends(
                    s,
                    FailureModel {
                        lines: seq!["goz: writing results failed: "@ + cause@],
                        code: run::EXIT_OUTPUT,
                    },
                )
            },
            _ => succeeds(s),
        },
        Action::Exit(_) => (s, seq![]),
    }
}

/// A run of the client.
pub struct Session {
    plan: EsPlan,
    action: Action,
    attempts: u32,
    scope: Option<String>,
    results: Option<QueryResults>,
    status: Option<DaemonStatus>,
}

impl Session {
    pub closed spec fn plan(&self) -> EsPlan {
        self.plan
    }

    pub closed spec fn state(&self) -> State {
        State {
            action: self.action,
            attempts: self.attempts as int,
            scope: match self.scope {
                Some(s) => Some(s@),
                None => None,
            },
            results: self.results,
            status: self.status,
        }
    }

    /// What the actions need is there.
    pub closed spec fn wf(&self) -> bool {
        &&& self.attempts <= client::BUSY_ATTEMPTS
        &&& self.action == Action::CreateFile ==> self.plan.export_csv is Some
        &&& self.action == Action::Resolve ==> self.plan.scope is Some
        &&& self.action == Action::ShowStatus ==> self.status is Some
        &&& self.action == Action::WriteFile || self.action == Action::WriteJson || self.action
            == Action::WriteList ==> self.results is Some
    }

    /// A run that has not begun.
    pub fn new(plan: EsPlan) -> (s: Session)
        ensures
            s.wf(),
            s.plan() == plan,
            s.state() == start(plan),
    {
        let action = if plan.export_csv.is_some() {
            Action::CreateFile
        } else {
            Action::Open
        };
        Session { plan, action, attempts: 0, scope: None, results: None, status: None }
    }

    /// What to do next.
    pub fn action(&self) -> (a: Action)
        ensures
            a == self.state().action,
    {
        self.action
    }

    /// The query that is to be sent.
    pub fn request(&self) -> (q: QueryRequest)
        ensures
            q.query@ == self.plan().query@,
            q.scope is Some <==> self.state().scope is Some,
            q.scope matches Some(s) ==> s@ == self.state().scope->Some_0,
            q.sort == self.plan().sort,
            q.offset == 0,
            q.limit == self.plan().limit,
            q.want_size,
            q.want_mtime,
            q.match_case == self.plan().match_case,
    {
        let scope = match &self.scope {
            Some(s) => Some(String::from_str(s.as_str())),
            None => None,
        };
        build_query(&self.plan, scope)
    }

    /// The results that are to be written.
    pub fn results(&self) -> (r: Option<&QueryResults>)
        ensures
            r is Some <==> self.state().results is Some,
            r matches Some(p) ==> *p == self.state().results->Some_0,
    {
        match &self.results {
            Some(p) => Some(p),
            None => None,
        }
    }

    /// The status that is to be shown.
    pub fn status(&self) -> (r: Option<&DaemonStatus>)
        ensures
            r is Some <==> self.state().status is Some,
            r matches Some(d) ==> *d == self.state().status->Some_0,
    {
        match &self.status {
            Some(d) => Some(d),
            None => None,
        }
    }

    fn end(&mut self, f: Failure) -> (lines: Vec<String>)
        ensures
            *final(self) == (Session { action: Action::Exit(f.code), ..*old(self) }),
            status::texts(lines@) == f.model().lines,
    {
        self.action = Action::Exit(f.code);
        assert(status::texts(f.lines@) =~= f.model().lines);
        f.lines
    }

    fn go_on(&mut self, action: Action) -> (lines: Vec<String>)
        ensures
            *final(self) == (Session { action, ..*old(self) }),
            status::texts(lines@) == Seq::<Seq<char>>::empty(),
    {
        self.action = action;
        let lines: Vec<String> = Vec::new();
        assert(status::texts(lines@) =~= Seq::<Seq<char>>::empty());
        lines
    }

    fn ask(&mut self) -> (lines: Vec<String>)
        ensures
            *final(self) == (Session { action: first_request(old(self).plan), ..*old(self) }),
            status::texts(lines@) == Seq::<Seq<char>>::empty(),
    {
        let action = if self.plan.status {
            Action::AskStatus
        } else if self.plan.scope.is_some() {
            Action::Resolve
        } else {
            Action::AskQuery
        };
        self.go_on(action)
    }

    fn take_unopened(&mut self, os_error: Option<i32>, cause: &str) -> (lines: Vec<String>)
        requires
            old(self).wf(),
            old(self).action == Action::Open,
        ensures
            final(self).wf(),
            final(self).plan == old(self).plan,
            (final(self).state(), status::texts(lines@)) == unopened(
                old(self).state(),
                os_error,
                cause@,
            ),
    {
        match after_open_error(os_error, self.attempts) {
            OpenStep::Unreachable => {
                let f = connect_failure(&ClientError::Unreachable);
                self.end(f)
            },
            OpenStep::Retry => {
                self.attempts = self.attempts + 1;
                self.go_on(Action::Pause)
            },
            OpenStep::Fail => {
                let f = connect_failure(&open_failure(cause));
                assert(f.model() == unopenable(cause@));
                self.end(f)
            },
        }
    }

    fn take_query(&mut self, reply: Result<Response, ClientError>) -> (lines: Vec<String>)
        requires
            old(self).wf(),
            old(self).action == Action::AskQuery,
        ensures
            final(self).wf(),
            final(self).plan == old(self).plan,
            (final(self).state(), status::texts(lines@)) == query_taken(
                old(self).plan,
                old(self).state(),
                reply,
            ),
    {
        match query_reply(reply) {
            Ok(results) => {
                let warning = results_warning(&results);
                self.results = Some(results);
                let action = match output_of(&self.plan) {
                    Output::Csv => Action::WriteFile,
                    Output::Json => Action::WriteJson,
                    Output::List => Action::WriteList,
                };
                let mut lines = self.go_on(action);
                if let Some(w) = warning {
                    lines.push(String::from_str(w));
                }
                assert(status::texts(lines@) =~= maybe(
                    results.volumes_incomplete,
                    run::INCOMPLETE_TEXT@,
                ));
                lines
            },
            Err(f) => self.end(f),
        }
    }

    fn take_status(&mut self, reply: Result<Response, ClientError>) -> (lines: Vec<String>)
        requires
            old(self).wf(),
            old(self).action == Action::AskStatus,
        ensures
            final(self).wf(),
            final(self).plan == old(self).plan,
            (final(self).state(), status::texts(lines@)) == status_taken(
                old(self).state(),
                reply,
            ),
    {
        match status_reply(reply) {
            Ok(status) => {
                self.status = Some(status);
                self.go_on(Action::ShowStatus)
            },
            Err(f) => self.end(f),
        }
    }

    fn take_resolved(&mut self, absolute: Option<String>) -> (lines: Vec<String>)
        requires
            old(self).wf(),
            old(self).action == Action::Resolve,
        ensures
            final(self).wf(),
            final(self).plan == old(self).plan,
            (final(self).state(), status::texts(lines@)) == after(
                old(self).plan,
                old(self).state(),
                Event::Resolved(absolute),
            ),
    {
        let (scope, warning) = match &self.plan.scope {
            Some(path) => scope_to_send(path.as_str(), absolute),
            None => (String::new(), None),
        };
        self.scope = Some(scope);
        let mut lines = self.go_on(Action::AskQuery);
        if let Some(w) = warning {
            lines.push(w);
        }
        assert(status::texts(lines@) =~= after(
            old(self).plan,
            old(self).state(),
            Event::Resolved(absolute),
        ).1);
        lines
    }

    fn take_shown(&mut self) -> (lines: Vec<String>)
        requires
            old(self).wf(),
            old(self).action == Action::ShowStatus,
        ensures
            final(self).wf(),
            final(self).plan == old(self).plan,
            (final(self).state(), status::texts(lines@)) == after(
                old(self).plan,
                old(self).state(),
                Event::Done,
            ),
    {
        let warning = match &self.status {
            Some(s) => status_warning(s),
            None => None,
        };
        let mut lines = self.go_on(Action::Exit(0));
        if let Some(w) = warning {
            lines.push(String::from_str(w));
        }
        assert(status::texts(lines@) =~= maybe(
            old(self).status->Some_0.volumes_incomplete,
            status::NOT_LIVE_TEXT@,
        ));
        lines
    }

    fn take_failed(&mut self, os_error: Option<i32>, gone: bool, cause: &str) -> (lines: Vec<
        String,
    >)
        requires
            old(self).wf(),
            can_fail(old(self).action),
        ensures
            final(self).wf(),
            final(self).plan == old(self).plan,
            forall|c: String|
                c@ == cause@ ==> (final(self).state(), status::texts(lines@)) == after(
                    old(self).plan,
                    old(self).state(),
                    #[trigger] failure_event(os_error, gone, c),
                ),
    {
        match self.action {
            Action::CreateFile => {
                let f = match &self.plan.export_csv {
                    Some(path) => create_failure(path.as_str(), cause),
                    None => create_failure("", cause),
                };
                self.end(f)
            },
            Action::Open => self.take_unopened(os_error, cause),
            Action::WriteFile => {
                let f = export_failure(cause);
                self.end(f)
            },
            Action::WriteJson => {
                let f = json_failure(cause);
                self.end(f)
            },
            _ => match list_failure(gone, cause) {
                Some(f) => self.end(f),
                None => self.go_on(Action::Exit(0)),
            },
        }
    }

    fn take_done(&mut self) -> (lines: Vec<String>)
        requires
            old(self).wf(),
            answers(old(self).action, Event::Done),
        ensures
            final(self).wf(),
            final(self).plan == old(self).plan,
            (final(self).state(), status::texts(lines@)) == after(
                old(self).plan,
                old(self).state(),
                Event::Done,
            ),
    {
        match self.action {
            Action::CreateFile => self.go_on(Action::Open),
            Action::Pause => self.go_on(Action::Open),
            Action::Open => {
                if self.plan.insecure_no_server_check {
                    self.ask()
                } else {
                    self.go_on(Action::CheckOwner)
                }
            },
            Action::ShowStatus => self.take_shown(),
            _ => self.go_on(Action::Exit(0)),
        }
    }

    /// Takes what came of the action; returns what the error stream is told.
    pub fn step(&mut self, event: Event) -> (lines: Vec<String>)
        requires
            old(self).wf(),
            answers(old(self).state().action, event),
        ensures
            final(self).wf(),
            final(self).plan() == old(self).plan(),
            (final(self).state(), status::texts(lines@)) == after(
                old(self).plan(),
                old(self).state(),
                event,
            ),
    {
        match event {
            Event::Done => self.take_done(),
            Event::Failed { os_error, gone, cause } => {
                assert(event == failure_event(os_error, gone, cause));
                self.take_failed(os_error, gone, cause.as_str())
            },
            Event::Owner(checked) => match may_send(false, checked) {
                Ok(_) => self.ask(),
                Err(e) => {
                    let f = connect_failure(&e);
                    self.end(f)
                },
            },
            Event::Resolved(absolute) => self.take_resolved(absolute),
            Event::Replied(reply) => {
                if self.action == Action::AskStatus {
                    self.take_status(reply)
                } else {
                    self.take_query(reply)
                }
            },
        }
    }
}

/// A failure as an event.
pub open spec fn failure_event(os_error: Option<i32>, gone: bool, cause: String) -> Event {
    Event::Failed { os_error, gone, cause }
}

/// Something is sent, or was.
pub open spec fn sends(a: Action) -> bool {
    match a {
        Action::AskStatus | Action::AskQuery | Action::Resolve | Action::ShowStatus
        | Action::WriteFile | Action::WriteJson | Action::WriteList => true,
        _ => false,
    }
}

/// Nothing is sent before the owner of the pipe was found to be a trusted one,
/// unless the plan waives the check.
pub proof fn law_nothing_is_sent_to_a_stranger(plan: EsPlan, s: State, e: Event)
    requires
        answers(s.action, e),
        !sends(s.action),
        sends(after(plan, s, e).0.action),
    ensures
        s.action == Action::CheckOwner && e == Event::Owner(Some(true)) || s.action == Action::Open
            && plan.insecure_no_server_check,
{
}

/// Where a plan names a file, the file is made before the pipe is opened: a
/// run begins with it, goes on only if it was made, and never makes it again.
/// So it is there, and empty, when the server cannot be reached.
pub proof fn law_the_file_is_made_first(plan: EsPlan, s: State, e: Event)
    requires
        answers(s.action, e),
    ensures
        plan.export_csv is Some ==> start(plan).action == Action::CreateFile,
        after(plan, s, e).0.action != Action::CreateFile,
        s.action == Action::CreateFile ==> after(plan, s, e).0.action == if e is Done {
            Action::Open
        } else {
            Action::Exit(run::EXIT_OUTPUT)
        },
{
}

/// How many steps a run is from its end at most.
pub open spec fn steps_left(s: State) -> int {
    match s.action {
        Action::CreateFile => 60,
        Action::Open => 12 + 2 * (client::BUSY_ATTEMPTS - s.attempts),
        Action::Pause => 13 + 2 * (client::BUSY_ATTEMPTS - s.attempts),
        Action::CheckOwner => 6,
        Action::Resolve => 5,
        Action::AskStatus | Action::AskQuery => 4,
        Action::ShowStatus | Action::WriteFile | Action::WriteJson | Action::WriteList => 2,
        Action::Exit(_) => 0,
    }
}

/// A run ends: each step comes nearer to the end, and the exit code is one of
/// those that are documented.
pub proof fn law_a_run_ends(plan: EsPlan, s: State, e: Event)
    requires
        answers(s.action, e),
        0 <= s.attempts <= client::BUSY_ATTEMPTS,
    ensures
        0 <= steps_left(after(plan, s, e).0) < steps_left(s),
        0 <= after(plan, s, e).0.attempts <= client::BUSY_ATTEMPTS,
        after(plan, s, e).0.action matches Action::Exit(code) ==> code == 0 || code == 4 || code
            == 5 || code == 7 || code == 8 || code == 9,
{
}

} // verus!
