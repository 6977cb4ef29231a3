//! Making sure that a volume has a change journal.

use crate::winfs::journal::{JournalInfo, JournalQuery};
use vstd::prelude::*;

verus! {

/// The least size of a journal: 64 MB.
pub const JOURNAL_MIN_SIZE: u64 = 0x0400_0000;

/// By how much a journal grows: 8 MB.
pub const JOURNAL_ALLOC_DELTA: u64 = 0x0080_0000;

/// How far it has come.
#[derive(Clone, Copy, Debug, PartialEq, Eq, Structural)]
pub enum JournalState {
    /// The journal was not asked for yet.
    Unknown,
    /// It is there, but too small, and is being made larger.
    Growing(JournalInfo),
    /// There is none, and one is being made.
    Creating,
    /// One was made, and is being asked for.
    Created,
    /// It is known whether there is one.
    Settled(Option<JournalInfo>),
}

/// What to do next.
#[derive(Clone, Copy, Debug, PartialEq, Eq, Structural)]
pub enum JournalTask {
    Query,
    /// Create a journal of this size, or make it that large.
    Create { maximum_size: u64, allocation_delta: u64 },
    /// Nothing is left to do.
    Finish(Option<JournalInfo>),
}

/// What came of it.
#[derive(Clone, Copy, Debug, PartialEq, Eq, Structural)]
pub enum JournalEvent {
    Queried(JournalQuery),
    QueryFailed,
    Done,
    CreateFailed,
}

/// What the log should say.
#[derive(Clone, Copy, Debug, PartialEq, Eq, Structural)]
pub enum JournalNote {
    CannotGrow,
    NotActive,
    CannotQueryAgain,
    CannotCreate,
    DeleteInProgress,
    CannotQuery,
}

impl JournalNote {
    /// The note in words.
    pub fn text(&self) -> (s: &'static str)
        ensures
            s@ == match self {
                JournalNote::CannotGrow =>
                    "could not grow the USN journal; a smaller journal wraps sooner"@,
                JournalNote::NotActive =>
                    "created a USN journal but it is not active; live updates unavailable"@,
                JournalNote::CannotQueryAgain =>
                    "created a USN journal but could not re-query it; live updates unavailable"@,
                JournalNote::CannotCreate =>
                    "no USN journal and could not create one; live updates unavailable"@,
                JournalNote::DeleteInProgress =>
                    "USN journal deletion in progress; live updates unavailable"@,
                JournalNote::CannotQuery =>
                    "could not query the USN journal; live updates unavailable"@,
            },
    {
        match self {
            JournalNote::CannotGrow =>
                "could not grow the USN journal; a smaller journal wraps sooner",
            JournalNote::NotActive =>
                "created a USN journal but it is not active; live updates unavailable",
            JournalNote::CannotQueryAgain =>
                "created a USN journal but could not re-query it; live updates unavailable",
            JournalNote::CannotCreate =>
                "no USN journal and could not create one; live updates unavailable",
            JournalNote::DeleteInProgress =>
                "USN journal deletion in progress; live updates unavailable",
            JournalNote::CannotQuery =>
                "could not query the USN journal; live updates unavailable",
        }
    }
}

/// What to do in a state.
pub open spec fn task_of(s: JournalState) -> JournalTask {
    match s {
        JournalState::Unknown | JournalState::Created => JournalTask::Query,
        JournalState::Growing(_) | JournalState::Creating => JournalTask::Create {
            maximum_size: JOURNAL_MIN_SIZE,
            allocation_delta: JOURNAL_ALLOC_DELTA,
        },
        JournalState::Settled(r) => JournalTask::Finish(r),
    }
}

/// The event answers what was to be done.
pub open spec fn answers(s: JournalState, e: JournalEvent) -> bool {
    match task_of(s) {
        JournalTask::Query => e is Queried || e is QueryFailed,
        JournalTask::Create { .. } => e is Done || e is CreateFailed,
        JournalTask::Finish(_) => false,
    }
}

/// The state after an event, and what the log should say.
pub open spec fn after(s: JournalState, e: JournalEvent) -> (JournalState, Option<JournalNote>) {
    match (s, e) {
        (JournalState::Unknown, JournalEvent::Queried(JournalQuery::Active(info))) => (
            if info.maximum_size < JOURNAL_MIN_SIZE {
                JournalState::Growing(info)
            } else {
                JournalState::Settled(Some(info))
            },
            None,
        ),
        (JournalState::Unknown, JournalEvent::Queried(JournalQuery::NotActive)) => (
            JournalState::Creating,
            None,
        ),
        (JournalState::Unknown, JournalEvent::Queried(JournalQuery::DeleteInProgress)) => (
            JournalState::Settled(None),
            Some(JournalNote::DeleteInProgress),
        ),
        (JournalState::Unknown, _) => (
            JournalState::Settled(None),
            Some(JournalNote::CannotQuery),
        ),
        (JournalState::Growing(info), JournalEvent::Done) => (
            JournalState::Settled(Some(info)),
            None,
        ),
        (JournalState::Growing(info), _) => (
            JournalState::Settled(Some(info)),
            Some(JournalNote::CannotGrow),
        ),
        (JournalState::Creating, JournalEvent::Done) => (JournalState::Created, None),
        (JournalState::Creating, _) => (
            JournalState::Settled(None),
            Some(JournalNote::CannotCreate),
        ),
        (JournalState::Created, JournalEvent::Queried(JournalQuery::Active(info))) => (
            JournalState::Settled(Some(info)),
            None,
        ),
        (JournalState::Created, JournalEvent::Queried(_)) => (
            JournalState::Settled(None),
            Some(JournalNote::NotActive),
        ),
        (JournalState::Created, _) => (
            JournalState::Settled(None),
            Some(JournalNote::CannotQueryAgain),
        ),
        (JournalState::Settled(_), _) => (s, None),
    }
}

/// What to do in a state.
pub fn journal_task(s: JournalState) -> (t: JournalTask)
    ensures
        t == task_of(s),
{
    match s {
        JournalState::Unknown => JournalTask::Query,
        JournalState::Created => JournalTask::Query,
        JournalState::Growing(_) => JournalTask::Create {
            maximum_size: JOURNAL_MIN_SIZE,
            allocation_delta: JOURNAL_ALLOC_DELTA,
        },
        JournalState::Creating => JournalTask::Create {
            maximum_size: JOURNAL_MIN_SIZE,
            allocation_delta: JOURNAL_ALLOC_DELTA,
        },
        JournalState::Settled(r) => JournalTask::Finish(r),
    }
}

/// The state after an event, and what the log should say.
pub fn ensure_journal(s: JournalState, e: JournalEvent) -> (r: (JournalState, Option<JournalNote>))
    requires
        answers(s, e),
    ensures
        r == after(s, e),
{
    match s {
        JournalState::Unknown => match e {
            JournalEvent::Queried(JournalQuery::Active(info)) => {
                if info.maximum_size < JOURNAL_MIN_SIZE {
                    (JournalState::Growing(info), None)
                } else {
                    (JournalState::Settled(Some(info)), None)
                }
            },
            JournalEvent::Queried(JournalQuery::NotActive) => (JournalState::Creating, None),
            JournalEvent::Queried(JournalQuery::DeleteInProgress) => (
                JournalState::Settled(None),
                Some(JournalNote::DeleteInProgress),
            ),
            _ => (JournalState::Settled(None), Some(JournalNote::CannotQuery)),
        },
        JournalState::Growing(info) => match e {
            JournalEvent::Done => (JournalState::Settled(Some(info)), None),
            _ => (JournalState::Settled(Some(info)), Some(JournalNote::CannotGrow)),
        },
        JournalState::Creating => match e {
            JournalEvent::Done => (JournalState::Created, None),
            _ => (JournalState::Settled(None), Some(JournalNote::CannotCreate)),
        },
        JournalState::Created => match e {
            JournalEvent::Queried(JournalQuery::Active(info)) => (
                JournalState::Settled(Some(info)),
                None,
            ),
            JournalEvent::Queried(_) => (
                JournalState::Settled(None),
                Some(JournalNote::NotActive),
            ),
            _ => (JournalState::Settled(None), Some(JournalNote::CannotQueryAgain)),
        },
        JournalState::Settled(_) => (s, None),
    }
}

/// How many steps a state is from the end at most.
pub open spec fn steps_left(s: JournalState) -> int {
    match s {
        JournalState::Unknown => 3,
        JournalState::Creating => 2,
        JournalState::Growing(_) | JournalState::Created => 1,
        JournalState::Settled(_) => 0,
    }
}

/// Each step comes nearer to the end, and a journal is used only if a query
/// said that it is active. One that cannot be made larger is used as it is.
pub proof fn law_journal_is_settled(s: JournalState, e: JournalEvent)
    requires
        answers(s, e),
    ensures
        steps_left(after(s, e).0) < steps_left(s),
        after(s, e).0 matches JournalState::Settled(Some(info)) ==> e == JournalEvent::Queried(
            JournalQuery::Active(info),
        ) || s == JournalState::Growing(info),
        after(s, e).0 matches JournalState::Growing(info) ==> e == JournalEvent::Queried(
            JournalQuery::Active(info),
        ) && info.maximum_size < JOURNAL_MIN_SIZE,
        after(s, e).0 is Settled && after(s, e).0->Settled_0 is None ==> after(s, e).1 is Some,
{
}

/// How it ends, given what the first query said, whether a journal could be
/// made or made larger, and what the second query said.
pub open spec fn ending(first: JournalEvent, made: JournalEvent, second: JournalEvent) -> (
    JournalState,
    Seq<Option<JournalNote>>,
) {
    let (a, x) = after(JournalState::Unknown, first);
    if a is Settled {
        (a, seq![x])
    } else {
        let (b, y) = after(a, made);
        if b is Settled {
            (b, seq![x, y])
        } else {
            let (c, z) = after(b, second);
            (c, seq![x, y, z])
        }
    }
}

/// A journal that is active is used, whether or not it can be made as large as
/// 64 MB. Where there is none, one of that size is made, and used if it is
/// active then. In every other case there is no journal, and the log says why.
pub proof fn law_a_journal_is_used_if_there_is_one(
    first: JournalEvent,
    made: JournalEvent,
    second: JournalEvent,
)
    requires
        first is Queried || first is QueryFailed,
        made is Done || made is CreateFailed,
        second is Queried || second is QueryFailed,
    ensures
        ({
            let (end, notes) = ending(first, made, second);
            let last = notes[notes.len() - 1];
            match first {
                JournalEvent::Queried(JournalQuery::Active(info)) => end == JournalState::Settled(
                    Some(info),
                ) && last == (if info.maximum_size < 67108864 && made is CreateFailed {
                    Some(JournalNote::CannotGrow)
                } else {
                    None
                }) && (notes.len() == 1 <==> info.maximum_size >= 67108864),
                JournalEvent::Queried(JournalQuery::NotActive) => if made is CreateFailed {
                    end == JournalState::Settled(None) && last == Some(JournalNote::CannotCreate)
                } else {
                    match second {
                        JournalEvent::Queried(JournalQuery::Active(info)) => end
                            == JournalState::Settled(Some(info)) && last is None,
                        JournalEvent::Queried(_) => end == JournalState::Settled(None) && last
                            == Some(JournalNote::NotActive),
                        _ => end == JournalState::Settled(None) && last == Some(
                            JournalNote::CannotQueryAgain,
                        ),
                    }
                },
                JournalEvent::Queried(JournalQuery::DeleteInProgress) => end
                    == JournalState::Settled(None) && last == Some(JournalNote::DeleteInProgress),
                _ => end == JournalState::Settled(None) && last == Some(JournalNote::CannotQuery),
            }
        }),
        task_of(JournalState::Unknown) == JournalTask::Query,
        task_of(JournalState::Created) == JournalTask::Query,
        task_of(JournalState::Creating) == (JournalTask::Create {
            maximum_size: 67108864,
            allocation_delta: 8388608,
        }),
        forall|info: JournalInfo|
            #[trigger] task_of(JournalState::Growing(info)) == (JournalTask::Create {
                maximum_size: 67108864,
                allocation_delta: 8388608,
            }),
        forall|r: Option<JournalInfo>|
            #[trigger] task_of(JournalState::Settled(r)) == JournalTask::Finish(r),
{
}

} // verus!
