//! The links of a file, asked for one by one.

use crate::winfs::error::{ERROR_HANDLE_EOF, ERROR_MORE_DATA};
use crate::winfs::wide;
use vstd::prelude::*;

verus! {

/// Units in the first buffer for a name.
pub const NAME_BUF_UNITS: u32 = 512;

/// How many links are asked for at most.
pub const MAX_LINKS: usize = 4096;

/// Which call is being waited for.
#[derive(Clone, Copy, Debug, PartialEq, Eq, Structural)]
pub enum LinkPhase {
    First,
    /// The first name, with a buffer of the size that was called for.
    FirstAgain,
    Next,
    /// A further name, with a buffer of the size that was called for.
    NextAgain,
    /// The file is gone, or its links cannot be told; no search was started.
    Gone,
    /// The search was broken off: not all links are known.
    Broken,
    /// The links are all there.
    Done,
}

/// What the call gave.
#[derive(Clone, Debug)]
pub enum LinkEvent {
    /// A buffer with a name.
    Name(Vec<u16>),
    /// An error code, and how many units the buffer would need.
    Failed { code: u32, needed: u32 },
}

/// What to do.
#[derive(Clone, Copy, Debug, PartialEq, Eq, Structural)]
pub enum LinkAction {
    /// Ask for the first name, with a buffer of so many units.
    FindFirst(u32),
    /// Ask for the next name, with a buffer of so many units.
    FindNext(u32),
    /// There is nothing to close: no search was started.
    GiveUp,
    /// Close the search.
    Close,
}

/// What a walk knows.
#[verifier::ext_equal]
pub ghost struct LinkState {
    pub phase: LinkPhase,
    pub units: u32,
    pub names: Seq<Seq<u16>>,
}

/// What the call gave.
pub ghost enum EventModel {
    Name(Seq<u16>),
    Failed { code: u32, needed: u32 },
}

impl LinkEvent {
    pub open spec fn model(&self) -> EventModel {
        match self {
            LinkEvent::Name(buf) => EventModel::Name(buf@),
            LinkEvent::Failed { code, needed } => EventModel::Failed {
                code: *code,
                needed: *needed,
            },
        }
    }
}

/// A name more; the walk ends when there are enough.
pub open spec fn named(s: LinkState, buf: Seq<u16>) -> LinkState {
    let names = s.names.push(wide::before_nul(buf));
    LinkState {
        phase: if names.len() >= MAX_LINKS {
            LinkPhase::Done
        } else {
            LinkPhase::Next
        },
        names,
        ..s
    }
}

/// What a walk knows after a call. A buffer that was too small is made larger
/// once. The links are all there when the search says so; any other error
/// breaks the walk off.
pub open spec fn stepped(s: LinkState, event: EventModel) -> LinkState {
    match event {
        EventModel::Name(buf) => named(s, buf),
        EventModel::Failed { code, needed } => match s.phase {
            LinkPhase::First => if code == ERROR_MORE_DATA {
                LinkState { phase: LinkPhase::FirstAgain, units: needed, ..s }
            } else {
                LinkState { phase: LinkPhase::Gone, ..s }
            },
            LinkPhase::FirstAgain => LinkState { phase: LinkPhase::Gone, ..s },
            _ => if code == ERROR_HANDLE_EOF {
                LinkState { phase: LinkPhase::Done, ..s }
            } else if s.phase == LinkPhase::Next && code == ERROR_MORE_DATA {
                LinkState { phase: LinkPhase::NextAgain, units: needed, ..s }
            } else {
                LinkState { phase: LinkPhase::Broken, ..s }
            },
        },
    }
}

/// What to do next.
pub open spec fn action_of(s: LinkState) -> LinkAction {
    match s.phase {
        LinkPhase::First | LinkPhase::FirstAgain => LinkAction::FindFirst(s.units),
        LinkPhase::Next | LinkPhase::NextAgain => LinkAction::FindNext(s.units),
        LinkPhase::Gone => LinkAction::GiveUp,
        LinkPhase::Broken | LinkPhase::Done => LinkAction::Close,
    }
}

/// There is nothing more to ask for.
pub open spec fn at_end(phase: LinkPhase) -> bool {
    phase == LinkPhase::Gone || phase == LinkPhase::Broken || phase == LinkPhase::Done
}

pub open spec fn unit_seqs(v: Seq<Vec<u16>>) -> Seq<Seq<u16>> {
    v.map_values(|n: Vec<u16>| n@)
}

/// A walk along the links of a file.
pub struct LinkWalk {
    phase: LinkPhase,
    units: u32,
    names: Vec<Vec<u16>>,
}

impl LinkWalk {
    pub closed spec fn state(&self) -> LinkState {
        LinkState { phase: self.phase, units: self.units, names: unit_seqs(self.names@) }
    }

    /// The walk is over.
    pub open spec fn over(&self) -> bool {
        at_end(self.state().phase)
    }

    /// A walk that has not begun.
    pub fn new() -> (w: LinkWalk)
        ensures
            w.state() == (LinkState {
                phase: LinkPhase::First,
                units: NAME_BUF_UNITS,
                names: Seq::empty(),
            }),
    {
        let w = LinkWalk { phase: LinkPhase::First, units: NAME_BUF_UNITS, names: Vec::new() };
        assert(unit_seqs(w.names@) =~= Seq::empty());
        w
    }

    /// What to do next.
    pub fn action(&self) -> (a: LinkAction)
        ensures
            a == action_of(self.state()),
    {
        match self.phase {
            LinkPhase::First => LinkAction::FindFirst(self.units),
            LinkPhase::FirstAgain => LinkAction::FindFirst(self.units),
            LinkPhase::Next => LinkAction::FindNext(self.units),
            LinkPhase::NextAgain => LinkAction::FindNext(self.units),
            LinkPhase::Gone => LinkAction::GiveUp,
            LinkPhase::Broken => LinkAction::Close,
            LinkPhase::Done => LinkAction::Close,
        }
    }

    /// Takes what the call gave.
    pub fn step(&mut self, event: &LinkEvent)
        requires
            !old(self).over(),
        ensures
            final(self).state() == stepped(old(self).state(), event.model()),
    {
        match event {
            LinkEvent::Name(buf) => {
                let ghost before = self.names@;
                let name = wide::take_name(buf.as_slice());
                self.names.push(name);
                assert(unit_seqs(self.names@) =~= unit_seqs(before).push(name@));
                self.phase = if self.names.len() >= MAX_LINKS {
                    LinkPhase::Done
                } else {
                    LinkPhase::Next
                };
            },
            LinkEvent::Failed { code, needed } => {
                match self.phase {
                    LinkPhase::First => {
                        if *code == ERROR_MORE_DATA {
                            self.units = *needed;
                            self.phase = LinkPhase::FirstAgain;
                        } else {
                            self.phase = LinkPhase::Gone;
                        }
                    },
                    LinkPhase::FirstAgain => {
                        self.phase = LinkPhase::Gone;
                    },
                    _ => {
                        if *code == ERROR_HANDLE_EOF {
                            self.phase = LinkPhase::Done;
                        } else if self.phase == LinkPhase::Next && *code == ERROR_MORE_DATA {
                            self.units = *needed;
                            self.phase = LinkPhase::NextAgain;
                        } else {
                            self.phase = LinkPhase::Broken;
                        }
                    },
                }
            },
        }
    }

    /// The names, if they are all there.
    pub fn finish(self) -> (r: Option<Vec<Vec<u16>>>)
        requires
            self.over(),
        ensures
            r is Some <==> self.state().phase == LinkPhase::Done,
            r matches Some(names) ==> unit_seqs(names@) == self.state().names,
    {
        match self.phase {
            LinkPhase::Done => Some(self.names),
            _ => None,
        }
    }
}

/// A walk never asks for more links than are allowed, and ends with those that
/// were told before it.
pub proof fn law_links_are_bounded(s: LinkState, event: EventModel)
    requires
        s.names.len() < MAX_LINKS,
        !at_end(s.phase),
    ensures
        stepped(s, event).names.len() <= MAX_LINKS,
        !at_end(stepped(s, event).phase) ==> stepped(s, event).names.len() < MAX_LINKS,
        s.names.is_prefix_of(stepped(s, event).names),
{
}

/// The links of a file are told only where the search came to its end, or as
/// many were found as are asked for at most. A search that was started is
/// closed, whatever came of it.
pub proof fn law_links_are_told_whole(s: LinkState, event: EventModel)
    requires
        !at_end(s.phase),
    ensures
        stepped(s, event).phase == LinkPhase::Done ==> {
            ||| event matches EventModel::Failed { code, .. } && code == ERROR_HANDLE_EOF
            ||| stepped(s, event).names.len() >= MAX_LINKS
        },
        s.phase == LinkPhase::Next || s.phase == LinkPhase::NextAgain ==> stepped(s, event).phase
            != LinkPhase::Gone,
{
}

/// The length of the path of an open file, given what two calls returned:
/// how many units are needed, and how many were written. The path with its NUL
/// fits only if fewer were written than are needed.
pub fn final_path_units(needed: u32, written: u32) -> (r: Option<usize>)
    ensures
        r is Some <==> needed != 0 && written != 0 && written < needed,
        r matches Some(n) ==> n == written + 1,
{
    if needed == 0 || written == 0 || written >= needed {
        None
    } else {
        Some(written as usize + 1)
    }
}

/// The first buffer has room for 512 units; one that is too small is made as
/// large as was called for, once. A search that never started gives nothing up,
/// one that ran out of names is whole, and any other error breaks it off.
pub proof fn law_buffers_grow_once(s: LinkState, code: u32, needed: u32)
    requires
        !at_end(s.phase),
    ensures
        ({
            let r = stepped(s, EventModel::Failed { code, needed });
            let first = s.phase is First || s.phase is FirstAgain;
            let again = (s.phase is First || s.phase is Next) && code == 234;
            &&& r.names == s.names
            &&& again ==> r.units == needed && (r.phase is FirstAgain <==> first) && (
            r.phase is NextAgain <==> !first)
            &&& !again ==> r.units == s.units && at_end(r.phase)
            &&& !again && first ==> r.phase is Gone && action_of(r) is GiveUp
            &&& !again && !first ==> action_of(r) is Close && (r.phase is Done <==> code == 38)
                && (r.phase is Broken <==> code != 38)
        }),
        NAME_BUF_UNITS == 512,
        action_of(s) == (if s.phase is First || s.phase is FirstAgain {
            LinkAction::FindFirst(s.units)
        } else {
            LinkAction::FindNext(s.units)
        }),
{
}

} // verus!
