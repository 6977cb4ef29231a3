//! What an index holds, and what happens to it.
//!
//! The entries are numbered. Each is one link of a file, and the links of one
//! file form a chain, found by the record number of the file.

use crate::index::store::{MTIME_UNKNOWN, SIZE_UNKNOWN};
use crate::types;
use crate::types::{EntryIdx, Frn, NIL};
use crate::usn::ops;
use crate::usn::ops::OpModel;
use crate::usn::record::RecordModel;
use vstd::prelude::*;

verus! {

/// Counters of what an index has met.
#[derive(Clone, Copy, Debug, PartialEq, Eq, Structural)]
pub struct IndexStats {
    /// Parents that were named before they were seen.
    pub placeholders_created: u64,
    /// Deletions of files that are not in the index.
    pub delete_of_unknown: u64,
    /// Old names that a rename reported.
    pub rename_old_seen: u64,
    /// Entries found under the record number of a later file.
    pub stale_slots: u64,
    /// Link reconciliations that could not be done.
    pub link_reconciles_dropped: u64,
}

impl Default for IndexStats {
    fn default() -> (s: IndexStats)
        ensures
            s == (IndexStats {
                placeholders_created: 0,
                delete_of_unknown: 0,
                rename_old_seen: 0,
                stale_slots: 0,
                link_reconciles_dropped: 0,
            }),
    {
        IndexStats {
            placeholders_created: 0,
            delete_of_unknown: 0,
            rename_old_seen: 0,
            stale_slots: 0,
            link_reconciles_dropped: 0,
        }
    }
}

/// The counters as numbers.
pub ghost struct Counts {
    pub placeholders_created: int,
    pub delete_of_unknown: int,
    pub rename_old_seen: int,
    pub stale_slots: int,
    pub link_reconciles_dropped: int,
}

impl IndexStats {
    pub open spec fn model(self) -> Counts {
        Counts {
            placeholders_created: self.placeholders_created as int,
            delete_of_unknown: self.delete_of_unknown as int,
            rename_old_seen: self.rename_old_seen as int,
            stale_slots: self.stale_slots as int,
            link_reconciles_dropped: self.link_reconciles_dropped as int,
        }
    }
}

/// One link of a file.
#[verifier::ext_equal]
pub ghost struct Ent {
    pub frn: Frn,
    pub parent: EntryIdx,
    pub name: Seq<u8>,
    pub lossy: bool,
    pub dir: bool,
    /// Stands in for a directory that is known by number only.
    pub placeholder: bool,
    pub size: u64,
    pub mtime: i64,
}

/// A new link, whose size and time are not known.
pub open spec fn new_ent(
    frn: Frn,
    parent: EntryIdx,
    name: Seq<u8>,
    lossy: bool,
    dir: bool,
    placeholder: bool,
) -> Ent {
    Ent {
        frn,
        parent,
        name,
        lossy,
        dir,
        placeholder,
        size: SIZE_UNKNOWN,
        mtime: MTIME_UNKNOWN,
    }
}

/// A link that a file should have.
pub ghost struct Target {
    pub parent: EntryIdx,
    pub name: Seq<u8>,
    pub lossy: bool,
}

/// A link that a file has according to the volume.
pub ghost struct Named {
    pub parent_frn: Frn,
    pub name: Seq<u8>,
    pub lossy: bool,
}

/// What an index holds.
#[verifier::ext_equal]
pub ghost struct Volume {
    /// The entries by index; a slot can be empty.
    pub slots: Seq<Option<Ent>>,
    /// The empty slots; the last one is filled next.
    pub free: Seq<EntryIdx>,
    /// The entries of each file, by record number.
    pub chains: Map<u64, Seq<EntryIdx>>,
    /// The entries whose directory has ended under them. Whatever takes its
    /// slot is not their directory.
    pub detached: Set<EntryIdx>,
    pub root: EntryIdx,
    pub lost_found: EntryIdx,
    /// How many entries stand in for a directory.
    pub placeholders: int,
    pub generation: int,
    pub stats: Counts,
    /// Writes since they were last counted.
    pub dirty: int,
}

/// The name of a placeholder: `$Placeholder`.
pub open spec fn placeholder_name() -> Seq<u8> {
    seq![
        0x24u8,
        0x50u8,
        0x6cu8,
        0x61u8,
        0x63u8,
        0x65u8,
        0x68u8,
        0x6fu8,
        0x6cu8,
        0x64u8,
        0x65u8,
        0x72u8,
    ]
}

/// The name of the directory that holds what has no parent: `$LostFound`.
pub open spec fn lost_found_name() -> Seq<u8> {
    seq![0x24u8, 0x4cu8, 0x6fu8, 0x73u8, 0x74u8, 0x46u8, 0x6fu8, 0x75u8, 0x6eu8, 0x64u8]
}

/// One less, but not below zero.
pub open spec fn less_one(n: int) -> int {
    if n <= 0 {
        0
    } else {
        n - 1
    }
}

/// An index that holds only the root directory and the lost and found
/// directory.
pub open spec fn new_volume(root_frn: Frn) -> Volume {
    Volume {
        slots: seq![
            Some(new_ent(root_frn, NIL, Seq::empty(), false, true, false)),
            Some(
                new_ent(Frn(0xFFFF_FFFF_FFFF_FFFF), NIL, lost_found_name(), false, true, false),
            ),
        ],
        free: Seq::empty(),
        chains: Map::empty().insert(types::record_of(root_frn.0), seq![0u32]),
        detached: Set::empty(),
        root: 0,
        lost_found: 1,
        placeholders: 0,
        generation: 0,
        stats: Counts {
            placeholders_created: 0,
            delete_of_unknown: 0,
            rename_old_seen: 0,
            stale_slots: 0,
            link_reconciles_dropped: 0,
        },
        dirty: 0,
    }
}

impl Volume {
    /// The slot holds an entry.
    pub open spec fn has(self, i: int) -> bool {
        0 <= i < self.slots.len() && self.slots[i] is Some
    }

    /// The entry in a slot.
    pub open spec fn ent(self, i: EntryIdx) -> Ent {
        self.slots[i as int]->0
    }

    /// The slot that the next entry gets.
    pub open spec fn next_slot(self) -> EntryIdx {
        if self.free.len() > 0 {
            self.free.last()
        } else {
            self.slots.len() as EntryIdx
        }
    }

    /// The detached entries after an entry was put under a parent.
    pub open spec fn put_under(self, i: EntryIdx, parent: EntryIdx) -> Set<EntryIdx> {
        if parent == NIL || parent == i || self.has(parent as int) {
            self.detached.remove(i)
        } else {
            self.detached.insert(i)
        }
    }

    /// With one more entry, in no chain.
    pub open spec fn created(self, x: Ent) -> Volume {
        let v = Volume { detached: self.put_under(self.next_slot(), x.parent), ..self };
        if self.free.len() > 0 {
            Volume {
                slots: self.slots.update(self.next_slot() as int, Some(x)),
                free: self.free.drop_last(),
                ..v
            }
        } else {
            Volume { slots: self.slots.push(Some(x)), ..v }
        }
    }

    /// The entry loses its directory when entry `i` ends.
    pub open spec fn hangs_on(self, k: EntryIdx, i: EntryIdx) -> bool {
        self.has(k as int) && self.ent(k).parent == i
    }

    /// Without an entry. Those that were in it are detached.
    pub open spec fn killed(self, i: EntryIdx) -> Volume {
        Volume {
            slots: self.slots.update(i as int, None),
            free: self.free.push(i),
            detached: Set::new(
                |k: EntryIdx| k != i && (self.detached.contains(k) || self.hangs_on(k, i)),
            ),
            ..self
        }
    }

    /// With another parent and name for an entry, which stands in for nothing
    /// any longer.
    pub open spec fn rewritten(
        self,
        i: EntryIdx,
        parent: EntryIdx,
        name: Seq<u8>,
        lossy: bool,
        dir: bool,
    ) -> Volume {
        let was = self.ent(i);
        Volume {
            slots: self.slots.update(
                i as int,
                Some(Ent { parent, name, lossy, dir, placeholder: false, ..was }),
            ),
            placeholders: if was.placeholder {
                less_one(self.placeholders)
            } else {
                self.placeholders
            },
            detached: self.put_under(i, parent),
            dirty: self.dirty + 1,
            ..self
        }
    }

    /// Without an entry; a placeholder is counted out.
    pub open spec fn ended(self, i: EntryIdx) -> Volume {
        Volume {
            placeholders: if self.ent(i).placeholder {
                less_one(self.placeholders)
            } else {
                self.placeholders
            },
            dirty: self.dirty + 1,
            ..self.killed(i)
        }
    }

    /// Without any of the entries.
    pub open spec fn all_ended(self, c: Seq<EntryIdx>) -> Volume
        decreases c.len(),
    {
        if c.len() == 0 {
            self
        } else {
            self.all_ended(c.drop_last()).ended(c.last())
        }
    }

    /// The first entry of a file.
    pub open spec fn head(self, frn: Frn) -> Option<EntryIdx> {
        let r = types::record_of(frn.0);
        if self.chains.dom().contains(r) && self.ent(self.chains[r][0]).frn == frn {
            Some(self.chains[r][0])
        } else {
            None
        }
    }

    /// Without the entries found by a record number.
    pub open spec fn dropped(self, r: u64) -> Volume {
        Volume { chains: self.chains.remove(r), ..self.all_ended(self.chains[r]) }
    }

    /// Without the entries found by a record number, if there are any: they
    /// belong to a file that is gone.
    pub open spec fn reclaimed(self, r: u64) -> Volume {
        if self.chains.dom().contains(r) {
            Volume {
                stats: Counts { stale_slots: self.stats.stale_slots + 1, ..self.stats },
                ..self.dropped(r)
            }
        } else {
            self
        }
    }

    /// With the record number of a file free for it: the entries of another
    /// file that had it before are gone.
    pub open spec fn claimed(self, frn: Frn) -> Volume {
        if self.head(frn) is Some {
            self
        } else {
            self.reclaimed(types::record_of(frn.0))
        }
    }

    /// With a new file of one link.
    pub open spec fn filed(self, x: Ent) -> Volume {
        Volume {
            chains: self.chains.insert(types::record_of(x.frn.0), seq![self.next_slot()]),
            dirty: self.dirty + 1,
            ..self.created(x)
        }
    }

    /// With a placeholder for a directory.
    pub open spec fn placeheld(self, frn: Frn) -> Volume {
        Volume {
            placeholders: self.placeholders + 1,
            stats: Counts {
                placeholders_created: self.stats.placeholders_created + 1,
                ..self.stats
            },
            ..self.filed(new_ent(frn, self.lost_found, placeholder_name(), false, true, true))
        }
    }

    /// Where a parent is, after it was given a placeholder if it has no entry.
    pub open spec fn resolved(self, frn: Frn) -> (Volume, EntryIdx) {
        match self.head(frn) {
            Some(h) => (self, h),
            None => {
                let v = self.reclaimed(types::record_of(frn.0));
                (v.placeheld(frn), v.next_slot())
            },
        }
    }

    /// After a file was seen with a name. The second part says that the file
    /// has several links, so that the name alone does not say which one it is.
    pub open spec fn upserted(
        self,
        frn: Frn,
        parent_frn: Frn,
        name: Seq<u8>,
        lossy: bool,
        dir: bool,
    ) -> (Volume, bool) {
        let (v, parent) = self.resolved(parent_frn);
        match v.head(frn) {
            Some(h) => if v.chains[types::record_of(frn.0)].len() == 1 {
                (v.rewritten(h, parent, name, lossy, dir), false)
            } else {
                (v, true)
            },
            None => (
                v.claimed(frn).filed(
                    new_ent(frn, parent, name, lossy, dir, false),
                ),
                false,
            ),
        }
    }

    /// After a file was deleted. The second part says whether it was there.
    pub open spec fn deleted(self, frn: Frn) -> (Volume, bool) {
        match self.head(frn) {
            Some(_) => (self.dropped(types::record_of(frn.0)), true),
            None => (self, false),
        }
    }

    /// An entry of the chain has the parent and the name. One that has lost its
    /// directory is in none.
    pub open spec fn has_link(self, c: Seq<EntryIdx>, parent: EntryIdx, name: Seq<u8>) -> bool {
        exists|k: int| 0 <= k < c.len() && self.is_link(#[trigger] c[k], parent, name)
    }

    pub open spec fn is_link(self, i: EntryIdx, parent: EntryIdx, name: Seq<u8>) -> bool {
        self.ent(i).parent == parent && self.ent(i).name == name && !self.detached.contains(i)
    }

    /// With one more link of a file.
    pub open spec fn linked(self, frn: Frn, parent: EntryIdx, name: Seq<u8>, lossy: bool) -> Volume {
        let r = types::record_of(frn.0);
        let v = self.claimed(frn);
        let i = v.next_slot();
        Volume {
            chains: v.chains.insert(
                r,
                if v.chains.dom().contains(r) {
                    v.chains[r].push(i)
                } else {
                    seq![i]
                },
            ),
            dirty: v.dirty + 1,
            ..v.created(new_ent(frn, parent, name, lossy, false, false))
        }
    }

    /// With sizes and times for the entries, where they are known.
    pub open spec fn measured(
        self,
        c: Seq<EntryIdx>,
        size: Option<u64>,
        mtime: Option<i64>,
    ) -> Volume {
        Volume {
            slots: Seq::new(
                self.slots.len(),
                |i: int|
                    if c.contains(i as EntryIdx) {
                        Some(
                            Ent {
                                size: if size is Some {
                                    size->0
                                } else {
                                    self.slots[i]->0.size
                                },
                                mtime: if mtime is Some {
                                    mtime->0
                                } else {
                                    self.slots[i]->0.mtime
                                },
                                ..self.slots[i]->0
                            },
                        )
                    } else {
                        self.slots[i]
                    },
            ),
            ..self
        }
    }

    /// Writes so far, and those that ending every entry would take.
    pub open spec fn load(self) -> int {
        self.dirty + self.slots.len() - self.free.len()
    }
}

/// The links of a file on the way to those that it should have.
#[verifier::ext_equal]
pub ghost struct Relink {
    pub volume: Volume,
    /// The links in their new order.
    pub kept: Seq<EntryIdx>,
    /// Which of the links that were there are among them.
    pub used: Seq<bool>,
}

/// The first link from `k` on that is not taken yet and is the target.
pub open spec fn spare_link(
    v: Volume,
    current: Seq<EntryIdx>,
    used: Seq<bool>,
    t: Target,
    k: int,
) -> int
    decreases current.len() - k,
{
    if k >= current.len() {
        -1
    } else if !used[k] && v.is_link(current[k], t.parent, t.name) {
        k
    } else {
        spare_link(v, current, used, t, k + 1)
    }
}

/// A target takes a link that is there, or gets a new one.
pub open spec fn relink_one(
    s: Relink,
    current: Seq<EntryIdx>,
    frn: Frn,
    dir: bool,
    t: Target,
) -> Relink {
    let pos = spare_link(s.volume, current, s.used, t, 0);
    if pos >= 0 {
        Relink { kept: s.kept.push(current[pos]), used: s.used.update(pos, true), ..s }
    } else {
        Relink {
            volume: Volume {
                dirty: s.volume.dirty + 1,
                ..s.volume.created(new_ent(frn, t.parent, t.name, t.lossy, dir, false))
            },
            kept: s.kept.push(s.volume.next_slot()),
            ..s
        }
    }
}

pub open spec fn relink_all(
    s: Relink,
    current: Seq<EntryIdx>,
    frn: Frn,
    dir: bool,
    targets: Seq<Target>,
) -> Relink
    decreases targets.len(),
{
    if targets.len() == 0 {
        s
    } else {
        relink_one(
            relink_all(s, current, frn, dir, targets.drop_last()),
            current,
            frn,
            dir,
            targets.last(),
        )
    }
}

/// Without those of the first `k` links that are not used.
pub open spec fn unused_ended(v: Volume, current: Seq<EntryIdx>, used: Seq<bool>, k: int) -> Volume
    decreases k,
{
    if k <= 0 {
        v
    } else {
        let w = unused_ended(v, current, used, k - 1);
        if used[k - 1] {
            w
        } else {
            Volume { dirty: w.dirty + 1, ..w.killed(current[k - 1]) }
        }
    }
}

impl Volume {
    /// The links of a file, if its record number leads to it.
    pub open spec fn links(self, frn: Frn) -> Seq<EntryIdx> {
        if self.head(frn) is Some {
            self.chains[types::record_of(frn.0)]
        } else {
            Seq::empty()
        }
    }

    /// With exactly the links that a file should have.
    pub open spec fn relinked(self, frn: Frn, dir: bool, targets: Seq<Target>) -> Volume {
        self.claimed(frn).relinked_to(frn, dir, targets)
    }

    pub open spec fn relinked_to(self, frn: Frn, dir: bool, targets: Seq<Target>) -> Volume {
        let current = self.links(frn);
        let none = Seq::new(current.len(), |i: int| false);
        let s = relink_all(
            Relink { volume: self, kept: Seq::empty(), used: none },
            current,
            frn,
            dir,
            targets,
        );
        let v = unused_ended(s.volume, current, s.used, current.len() as int);
        Volume { chains: v.chains.insert(types::record_of(frn.0), s.kept), ..v }
    }

    /// The targets that names stand for, after each parent was resolved.
    pub open spec fn targeted(self, names: Seq<Named>) -> (Volume, Seq<Target>)
        decreases names.len(),
    {
        if names.len() == 0 {
            (self, Seq::empty())
        } else {
            let (v, targets) = self.targeted(names.drop_last());
            let n = names.last();
            let (w, parent) = v.resolved(n.parent_frn);
            (w, targets.push(Target { parent, name: n.name, lossy: n.lossy }))
        }
    }

    /// With a link for a name, unless the file has it.
    pub open spec fn joined(self, frn: Frn, n: Named) -> Volume {
        let (v, parent) = self.resolved(n.parent_frn);
        if v.has_link(v.links(frn), parent, n.name) {
            v
        } else {
            v.linked(frn, parent, n.name, n.lossy)
        }
    }

    pub open spec fn all_joined(self, frn: Frn, names: Seq<Named>) -> Volume
        decreases names.len(),
    {
        if names.len() == 0 {
            self
        } else {
            self.all_joined(frn, names.drop_last()).joined(frn, names.last())
        }
    }

    /// After a file was read from the volume: it has the names as links, and
    /// the size and time where they are known.
    pub open spec fn enriched(
        self,
        frn: Frn,
        dir: bool,
        names: Seq<Named>,
        size: Option<u64>,
        mtime: Option<i64>,
    ) -> Volume {
        if self.head(frn) is None && names.len() == 0 {
            self
        } else {
            let v = if self.head(frn) is None {
                let (w, targets) = self.targeted(names);
                w.relinked(frn, dir, targets)
            } else {
                self
            };
            let w = if dir {
                v
            } else {
                v.all_joined(frn, names)
            };
            w.measured(
                w.links(frn),
                if dir {
                    None
                } else {
                    size
                },
                mtime,
            )
        }
    }
}

/// An index while a batch of journal records is applied, and what is left to
/// do afterwards.
#[verifier::ext_equal]
pub ghost struct Applied {
    pub volume: Volume,
    /// Files whose size and time must be read.
    pub needs_stat: Seq<Frn>,
    /// Files whose links must be read.
    pub needs_link_reconcile: Seq<Frn>,
    /// Files that were deleted but are not in the index.
    pub unknown: Seq<Frn>,
}

/// Nothing is left to do.
pub open spec fn unapplied(v: Volume) -> Applied {
    Applied {
        volume: v,
        needs_stat: Seq::empty(),
        needs_link_reconcile: Seq::empty(),
        unknown: Seq::empty(),
    }
}

/// After one step.
pub open spec fn op_applied(s: Applied, op: OpModel) -> Applied {
    match op {
        OpModel::Upsert { frn, parent, name, name_lossy, is_dir } => {
            let (v, needs) = s.volume.upserted(frn, parent, name, name_lossy, is_dir);
            Applied {
                volume: v,
                needs_link_reconcile: if needs {
                    s.needs_link_reconcile.push(frn)
                } else {
                    s.needs_link_reconcile
                },
                ..s
            }
        },
        OpModel::Delete { frn } => {
            let (v, found) = s.volume.deleted(frn);
            if found {
                Applied { volume: v, ..s }
            } else {
                Applied {
                    volume: Volume {
                        stats: Counts {
                            delete_of_unknown: v.stats.delete_of_unknown + 1,
                            ..v.stats
                        },
                        ..v
                    },
                    unknown: s.unknown.push(frn),
                    ..s
                }
            }
        },
        OpModel::LinkDirty { frn } => Applied {
            needs_link_reconcile: s.needs_link_reconcile.push(frn),
            ..s
        },
        OpModel::StatDirty { frn } => Applied { needs_stat: s.needs_stat.push(frn), ..s },
        OpModel::RenameOldSeen { frn } => Applied {
            volume: Volume {
                stats: Counts {
                    rename_old_seen: s.volume.stats.rename_old_seen + 1,
                    ..s.volume.stats
                },
                ..s.volume
            },
            ..s
        },
    }
}

/// After the steps, in order.
pub open spec fn ops_applied(s: Applied, todo: Seq<OpModel>) -> Applied
    decreases todo.len(),
{
    if todo.len() == 0 {
        s
    } else {
        op_applied(ops_applied(s, todo.drop_last()), todo.last())
    }
}

/// After the records, in order.
pub open spec fn records_applied(s: Applied, records: Seq<RecordModel>) -> Applied
    decreases records.len(),
{
    if records.len() == 0 {
        s
    } else {
        ops_applied(records_applied(s, records.drop_last()), ops::steps(records.last()))
    }
}

/// After a batch of records.
pub open spec fn batch_applied(v: Volume, records: Seq<RecordModel>) -> Applied {
    let s = records_applied(unapplied(v), records);
    Applied { volume: Volume { generation: s.volume.generation + 1, ..s.volume }, ..s }
}

} // verus!
