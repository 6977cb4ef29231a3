//! What the volume reports.

use super::links;
use super::links::{LinkTarget, WtfName};
use super::ops;
use super::VolumeIndex;
use crate::index::figures;
use crate::index::model;
use crate::index::model::{Applied, Counts, Ent, Named, Target, Volume};
use crate::index::standins;
use crate::index::store::{EntryFlags, Slot};
use crate::index::volume;
use crate::layout::parse;
use crate::layout::parse::LayoutFile;
use crate::types;
use crate::types::{EntryIdx, Frn, NIL};
use crate::usn::ops as steps;
use crate::usn::ops::{OpModel, UsnOp};
use crate::usn::record;
use crate::usn::record::{ParsedUsnRecord, RecordModel};
use vstd::prelude::*;

verus! {

/// Something that a batch reported and that does not fit the index.
#[derive(Clone, Copy, Debug, PartialEq, Eq, Structural)]
pub enum Anomaly {
    /// A file was deleted that is not in the index.
    DeleteOfUnknown { frn: Frn },
}

/// What is left to do after a batch of journal records.
#[derive(Clone, Debug, PartialEq, Eq)]
pub struct ApplyOutcome {
    /// Files whose size and time must be read.
    pub needs_stat: Vec<Frn>,
    /// Files whose links must be read.
    pub needs_link_reconcile: Vec<Frn>,
    pub anomalies: Vec<Anomaly>,
    /// Enough of the names is no longer in use.
    pub wants_compact: bool,
}

impl Default for ApplyOutcome {
    fn default() -> (o: ApplyOutcome)
        ensures
            o.needs_stat@.len() == 0,
            o.needs_link_reconcile@.len() == 0,
            o.anomalies@.len() == 0,
            !o.wants_compact,
    {
        ApplyOutcome {
            needs_stat: Vec::new(),
            needs_link_reconcile: Vec::new(),
            anomalies: Vec::new(),
            wants_compact: false,
        }
    }
}

pub open spec fn anomalies_of(unknown: Seq<Frn>) -> Seq<Anomaly> {
    unknown.map_values(|frn: Frn| Anomaly::DeleteOfUnknown { frn })
}

/// What changes take at most: links, and bytes of names.
pub ghost struct Cost {
    pub n: int,
    pub raw: int,
    pub folded: int,
}

pub open spec fn no_cost() -> Cost {
    Cost { n: 0, raw: 0, folded: 0 }
}

impl Cost {
    pub open spec fn plus(self, other: Cost) -> Cost {
        Cost {
            n: self.n + other.n,
            raw: self.raw + other.raw,
            folded: self.folded + other.folded,
        }
    }

    pub open spec fn within(self, other: Cost) -> bool {
        0 <= self.n <= other.n && 0 <= self.raw <= other.raw && 0 <= self.folded <= other.folded
    }
}

/// A name in a directory takes the name and a placeholder.
pub open spec fn name_cost(name: Seq<u8>) -> Cost {
    Cost {
        n: 2,
        raw: ops::PLACEHOLDER_COST + ops::raw_cost(name),
        folded: ops::PLACEHOLDER_COST + ops::folded_cost(name),
    }
}

pub open spec fn op_cost(op: OpModel) -> Cost {
    match op {
        OpModel::Upsert { name, .. } => name_cost(name),
        _ => Cost { n: 1, raw: 0, folded: 0 },
    }
}

pub open spec fn op_short(op: OpModel) -> bool {
    op matches OpModel::Upsert { name, .. } ==> ops::short_name(name)
}

pub open spec fn ops_cost(todo: Seq<OpModel>) -> Cost
    decreases todo.len(),
{
    if todo.len() == 0 {
        no_cost()
    } else {
        ops_cost(todo.drop_last()).plus(op_cost(todo.last()))
    }
}

pub open spec fn ops_short(todo: Seq<OpModel>) -> bool {
    forall|k: int| 0 <= k < todo.len() ==> op_short(#[trigger] todo[k])
}

/// What a batch of records takes at most.
pub open spec fn batch_cost(records: Seq<RecordModel>) -> Cost
    decreases records.len(),
{
    if records.len() == 0 {
        no_cost()
    } else {
        batch_cost(records.drop_last()).plus(ops_cost(steps::steps(records.last())))
    }
}

/// The names that a batch gives to files can be stored.
pub open spec fn batch_short(records: Seq<RecordModel>) -> bool {
    forall|k: int| 0 <= k < records.len() ==> ops_short(steps::steps(#[trigger] records[k]))
}

pub open spec fn models_of(records: Seq<ParsedUsnRecord>) -> Seq<RecordModel> {
    records.map_values(|r: ParsedUsnRecord| r.model())
}

/// The names of a file that are not mere aliases.
pub open spec fn long_names(names: Seq<parse::NameModel>) -> Seq<Named>
    decreases names.len(),
{
    if names.len() == 0 {
        Seq::empty()
    } else {
        let n = names.last();
        let rest = long_names(names.drop_last());
        if n.dos_only {
            rest
        } else {
            rest.push(Named { parent_frn: n.parent_frn, name: n.name, lossy: n.name_lossy })
        }
    }
}

/// What names in directories take at most.
pub open spec fn names_cost(names: Seq<Named>) -> Cost
    decreases names.len(),
{
    if names.len() == 0 {
        no_cost()
    } else {
        names_cost(names.drop_last()).plus(name_cost(names.last().name))
    }
}

/// What the names of a file take at most, with the links that it lacks.
pub open spec fn file_cost(names: Seq<Named>) -> Cost {
    names_cost(names).plus(names_cost(names))
}

pub open spec fn names_short(names: Seq<Named>) -> bool {
    forall|k: int| 0 <= k < names.len() ==> ops::short_name((#[trigger] names[k]).name)
}

/// A record number stands for one parent among the names of a file.
pub open spec fn parents_distinct(names: Seq<Named>) -> bool {
    forall|i: int, j: int|
        0 <= i < names.len() && 0 <= j < names.len() && types::record_of(
            (#[trigger] names[i]).parent_frn.0,
        ) == types::record_of((#[trigger] names[j]).parent_frn.0) ==> names[i].parent_frn
            == names[j].parent_frn
}

pub proof fn lemma_ops_cost(todo: Seq<OpModel>, i: int)
    requires
        0 <= i <= todo.len(),
    ensures
        ops_cost(todo.take(i)).within(ops_cost(todo)),
        i < todo.len() ==> ops_cost(todo.take(i + 1)) == ops_cost(todo.take(i)).plus(
            op_cost(todo[i]),
        ),
    decreases todo.len(),
{
    if i < todo.len() {
        assert(todo.take(i + 1).drop_last() =~= todo.take(i));
        lemma_ops_cost(todo.drop_last(), i);
        assert(todo.drop_last().take(i) =~= todo.take(i));
    } else {
        assert(todo.take(i) =~= todo);
        if todo.len() > 0 {
            lemma_ops_cost(todo.drop_last(), todo.len() - 1);
            assert(todo.drop_last().take(todo.len() - 1) =~= todo.drop_last());
        }
    }
}

pub proof fn lemma_batch_cost(records: Seq<RecordModel>, i: int)
    requires
        0 <= i <= records.len(),
    ensures
        batch_cost(records.take(i)).within(batch_cost(records)),
        i < records.len() ==> batch_cost(records.take(i + 1)) == batch_cost(records.take(i)).plus(
            ops_cost(steps::steps(records[i])),
        ),
    decreases records.len(),
{
    if i < records.len() {
        assert(records.take(i + 1).drop_last() =~= records.take(i));
        lemma_batch_cost(records.drop_last(), i);
        assert(records.drop_last().take(i) =~= records.take(i));
        lemma_ops_cost(steps::steps(records.last()), 0);
    } else {
        assert(records.take(i) =~= records);
        if records.len() > 0 {
            lemma_batch_cost(records.drop_last(), records.len() - 1);
            assert(records.drop_last().take(records.len() - 1) =~= records.drop_last());
            lemma_ops_cost(steps::steps(records.last()), 0);
        }
    }
}

pub proof fn lemma_names_cost(names: Seq<Named>, i: int)
    requires
        0 <= i <= names.len(),
    ensures
        names_cost(names.take(i)).within(names_cost(names)),
        names_cost(names).n == 2 * names.len(),
        i < names.len() ==> names_cost(names.take(i + 1)) == names_cost(names.take(i)).plus(
            name_cost(names[i].name),
        ),
        ops::PLACEHOLDER_COST * names.len() <= names_cost(names).raw,
        ops::PLACEHOLDER_COST * names.len() <= names_cost(names).folded,
    decreases names.len(),
{
    if i < names.len() {
        assert(names.take(i + 1).drop_last() =~= names.take(i));
        lemma_names_cost(names.drop_last(), i);
        assert(names.drop_last().take(i) =~= names.take(i));
    } else {
        assert(names.take(i) =~= names);
        if names.len() > 0 {
            lemma_names_cost(names.drop_last(), names.len() - 1);
            assert(names.drop_last().take(names.len() - 1) =~= names.drop_last());
        }
    }
}

/// The first names give the first long names.
pub proof fn lemma_long_prefix(names: Seq<parse::NameModel>, i: int)
    requires
        0 <= i <= names.len(),
    ensures
        long_names(names.take(i)).len() <= long_names(names).len(),
        long_names(names.take(i)) == long_names(names).take(
            long_names(names.take(i)).len() as int,
        ),
    decreases names.len(),
{
    if i < names.len() {
        lemma_long_prefix(names.drop_last(), i);
        assert(names.drop_last().take(i) =~= names.take(i));
        let rest = long_names(names.drop_last());
        let n = long_names(names.take(i)).len() as int;
        assert(long_names(names).take(n) =~= rest.take(n));
    } else {
        assert(names.take(i) =~= names);
        assert(long_names(names) =~= long_names(names).take(long_names(names).len() as int));
    }
}

/// One more name gives one more long name, or none.
pub proof fn lemma_long_step(names: Seq<parse::NameModel>, i: int)
    requires
        0 <= i < names.len(),
    ensures
        long_names(names.take(i + 1)) == (if names[i].dos_only {
            long_names(names.take(i))
        } else {
            long_names(names.take(i)).push(
                Named {
                    parent_frn: names[i].parent_frn,
                    name: names[i].name,
                    lossy: names[i].name_lossy,
                },
            )
        }),
{
    assert(names.take(i + 1).drop_last() =~= names.take(i));
    assert(names.take(i + 1).last() == names[i]);
}

/// The targets have the names that they stand for.
proof fn lemma_targeted(v: Volume, names: Seq<Named>)
    ensures
        v.targeted(names).1.len() == names.len(),
        forall|k: int|
            0 <= k < names.len() ==> (#[trigger] v.targeted(names).1[k]).name == names[k].name,
        links::raw_sum(v.targeted(names).1) + ops::PLACEHOLDER_COST * names.len() == names_cost(
            names,
        ).raw,
        links::folded_sum(v.targeted(names).1) + ops::PLACEHOLDER_COST * names.len()
            == names_cost(names).folded,
    decreases names.len(),
{
    if names.len() > 0 {
        lemma_targeted(v, names.drop_last());
        let (w, targets) = v.targeted(names.drop_last());
        let all = v.targeted(names).1;
        assert(all.drop_last() =~= targets);
        assert forall|k: int| 0 <= k < names.len() implies (#[trigger] all[k]).name
            == names[k].name by {
            if k < targets.len() {
                assert(all[k] == targets[k]);
                assert(names.drop_last()[k] == names[k]);
            }
        }
    }
}

impl VolumeIndex {
    /// There is room for what costs so much.
    pub open spec fn affords(&self, c: Cost) -> bool {
        self.room(c.n, c.raw, c.folded)
    }

    pub open spec fn spent(&self, before: VolumeIndex, c: Cost) -> bool {
        self.grown(before, c.n, c.raw, c.folded)
    }

    /// Sets size and time of an entry, where they are known.
    fn measure_one(&mut self, idx: EntryIdx, size: Option<u64>, mtime: Option<i64>)
        requires
            old(self).sound(-1, -1, -1, -1),
            old(self).model().has(idx as int),
        ensures
            final(self).sound(-1, -1, -1, -1),
            final(self).by_frn == old(self).by_frn,
            final(self).model() == (Volume {
                slots: old(self).model().slots.update(
                    idx as int,
                    Some(
                        Ent {
                            size: if size is Some {
                                size->0
                            } else {
                                old(self).model().ent(idx).size
                            },
                            mtime: if mtime is Some {
                                mtime->0
                            } else {
                                old(self).model().ent(idx).mtime
                            },
                            ..old(self).model().ent(idx)
                        },
                    ),
                ),
                ..old(self).model()
            }),
            final(self).model().surplus() == old(self).model().surplus(),
            forall|i: int|
                0 <= i < old(self).entries.slots().len() ==> (
                #[trigger] final(self).entries.slots()[i]).next_link
                    == old(self).entries.slots()[i].next_link,
            final(self).ids() == old(self).ids(),
            final(self).raw_len() == old(self).raw_len(),
            final(self).folded_len() == old(self).folded_len(),
    {
        let ghost a = self.entries.slots();
        proof {
            self.lemma_live(idx as int);
            self.entries.lemma_wf();
        }
        if let Some(s) = size {
            self.entries.set_size(idx, s);
        }
        if let Some(t) = mtime {
            self.entries.set_mtime(idx, t);
        }
        proof {
            let b = self.entries.slots();
            assert forall|i: int| 0 <= i < a.len() implies #[trigger] b[i] == (Slot {
                size: b[i].size,
                mtime: b[i].mtime,
                next_link: b[i].next_link,
                ..a[i]
            }) && b[i].next_link == a[i].next_link by {}
            self.lemma_columns(a, b);
            assert(volume::chains_ok(b, self.lost_found, self.chains@)) by {
                assert forall|r: u64| #[trigger] self.chains@.dom().contains(r) implies volume::chain_ok(
                    b,
                    self.lost_found,
                    r,
                    self.chains@[r],
                ) by {
                    let c = self.chains@[r];
                    assert(volume::chain_ok(a, self.lost_found, r, c));
                    assert forall|k: int| #![trigger c[k]] 0 <= k < c.len() implies b[c[k] as int].next_link
                        == a[c[k] as int].next_link by {}
                }
            }
            assert(self.model().slots =~= old(self).model().slots.update(
                idx as int,
                self.model().slots[idx as int],
            ));
            standins::lemma_same(old(self).model().slots, self.model().slots);
        }
    }

    /// Sets size and time of all links of a file, where they are known.
    fn measure(&mut self, frn: Frn, size: Option<u64>, mtime: Option<i64>)
        requires
            old(self).wf(),
        ensures
            final(self).wf(),
            final(self).model() == old(self).model().measured(
                old(self).model().links(frn),
                size,
                mtime,
            ),
            final(self).grown(*old(self), 0, 0, 0),
    {
        let record = frn.record_number();
        let ghost v0 = self.model();
        let ghost c = self.model().links(frn);
        proof {
            self.lemma_head(record);
        }
        let mut cur = match self.head_of(frn) {
            Some(head) => head,
            None => NIL,
        };
        let ghost mut k: int = 0;
        assert(self.model() =~= v0.measured(c.take(0), size, mtime));
        while cur != NIL
            invariant
                0 <= k <= c.len(),
                c.len() > 0 ==> volume::chain_ok(self.entries.slots(), self.lost_found, record, c),
                c.no_duplicates(),
                cur == (if k < c.len() {
                    c[k]
                } else {
                    NIL
                }),
                self.wf(),
                self.sound(-1, -1, -1, -1),
                self.entries.wf(),
                self.entries.slots().len() < NIL,
                self.by_frn == old(self).by_frn,
                v0 == old(self).model(),
                self.model() == v0.measured(c.take(k), size, mtime),
                self.grown(*old(self), 0, 0, 0),
                c.len() > 0 ==> v0.chains.dom().contains(record) && v0.chains[record] == c,
            decreases c.len() - k,
        {
            let ghost e = self.entries.slots();
            let ghost v = self.model();
            proof {
                assert(c[k] == cur);
                self.lemma_live(cur as int);
                if k + 1 < c.len() {
                    assert(c[k + 1] < e.len());
                }
            }
            let next = self.entries.next_link(cur);
            self.measure_one(cur, size, mtime);
            proof {
                assert(!c.take(k).contains(cur)) by {
                    if c.take(k).contains(cur) {
                        let j = choose|j: int| 0 <= j < c.take(k).len() && c.take(k)[j] == cur;
                        assert(c[j] == c[k]);
                    }
                }
                assert forall|i: int|
                    0 <= i < v0.slots.len() implies #[trigger] self.model().slots[i]
                    == v0.measured(c.take(k + 1), size, mtime).slots[i] by {
                    if i == cur {
                        assert(c.take(k + 1)[k] == cur);
                        assert(c.take(k + 1).contains(cur));
                        assert(v.slots[i] == v0.slots[i]);
                    } else if c.take(k).contains(i as EntryIdx) {
                        let j = choose|j: int|
                            0 <= j < c.take(k).len() && c.take(k)[j] == i as EntryIdx;
                        assert(c.take(k + 1)[j] == i as EntryIdx);
                    } else if c.take(k + 1).contains(i as EntryIdx) {
                        let more = c.take(k + 1);
                        let j = choose|j: int| 0 <= j < more.len() && more[j] == i as EntryIdx;
                        if j < k {
                            assert(c.take(k)[j] == i as EntryIdx);
                        }
                        assert(i < NIL);
                        assert(false);
                    }
                }
                assert(self.model() =~= v0.measured(c.take(k + 1), size, mtime));
                k = k + 1;
            }
            cur = next;
        }
        proof {
            if k < c.len() {
                assert(c[k] < self.entries.slots().len());
            }
            assert(c.take(k) =~= c);
        }
    }

    /// Sets size and time of a file; a directory has no size. Nothing happens
    /// where the file is not in the index.
    pub fn set_stat(&mut self, frn: Frn, size: u64, mtime: i64)
        requires
            old(self).wf(),
        ensures
            final(self).wf(),
            final(self).model() == (match old(self).model().head(frn) {
                None => old(self).model(),
                Some(h) => old(self).model().measured(
                    old(self).model().links(frn),
                    if old(self).model().ent(h).dir {
                        None
                    } else {
                        Some(size)
                    },
                    Some(mtime),
                ),
            }),
            final(self).model().slots.len() == old(self).model().slots.len(),
            final(self).model().chains == old(self).model().chains,
            forall|i: EntryIdx|
                old(self).model().links(frn).contains(i) ==> (#[trigger] final(self).model().ent(
                    i,
                )).mtime == mtime && final(self).model().ent(i).size == (if old(
                    self,
                ).model().ent(old(self).model().links(frn)[0]).dir {
                    old(self).model().ent(i).size
                } else {
                    size
                }) && final(self).model().ent(i).parent == old(self).model().ent(i).parent
                    && final(self).model().ent(i).name == old(self).model().ent(i).name,
            forall|i: EntryIdx|
                i < old(self).model().slots.len() && !old(self).model().links(frn).contains(i)
                    ==> #[trigger] final(self).model().slots[i as int]
                    == old(self).model().slots[i as int],
    {
        proof {
            let v = self.model();
            self.lemma_ok();
            assert forall|i: EntryIdx| v.links(frn).contains(i) implies #[trigger] v.has(
                i as int,
            ) by {
                figures::lemma_links_there(v, frn, i);
            }
        }
        let head = match self.head_of(frn) {
            None => {
                return ;
            },
            Some(head) => head,
        };
        proof {
            self.lemma_head(types::record_of(frn.0));
            self.lemma_live(head as int);
        }
        let is_dir = self.entries.flags(head).contains(EntryFlags::DIR);
        let known = if is_dir {
            None
        } else {
            Some(size)
        };
        self.measure(frn, known, Some(mtime));
    }

    /// A file was listed with its name.
    pub fn insert_enum(&mut self, rec: &ParsedUsnRecord)
        requires
            old(self).wf(),
            ops::short_name(rec.name@),
            old(self).affords(name_cost(rec.name@)),
        ensures
            final(self).wf(),
            final(self).model() == old(self).model().upserted(
                rec.frn,
                rec.parent_frn,
                rec.name@,
                rec.name_lossy,
                record::directory(rec.attributes),
            ).0,
            final(self).spent(*old(self), name_cost(rec.name@)),
    {
        let _ = self.upsert_link(
            rec.frn,
            rec.parent_frn,
            rec.name.as_slice(),
            rec.name_lossy,
            rec.is_dir(),
        );
    }

    /// Notes that link reconciliations could not be done.
    pub fn note_link_reconciles_dropped(&mut self, n: u64)
        requires
            old(self).wf(),
            old(self).model().stats.link_reconciles_dropped + n <= u64::MAX,
        ensures
            final(self).wf(),
            final(self).model() == (Volume {
                stats: Counts {
                    link_reconciles_dropped: old(self).model().stats.link_reconciles_dropped + n,
                    ..old(self).model().stats
                },
                ..old(self).model()
            }),
    {
        self.stats.link_reconciles_dropped = self.stats.link_reconciles_dropped + n;
        proof {
            assert(self.model().slots =~= old(self).model().slots);
        }
    }

    /// The writes since they were last counted; the count starts anew.
    pub fn take_write_count(&mut self) -> (n: u64)
        requires
            old(self).wf(),
        ensures
            n == old(self).model().dirty,
            final(self).wf(),
            final(self).model() == (Volume { dirty: 0, ..old(self).model() }),
    {
        let n = self.dirty;
        self.dirty = 0;
        proof {
            assert(self.model().slots =~= old(self).model().slots);
        }
        n
    }

    /// The links of a file were read. Without any, the file is gone.
    pub fn reconcile_links(&mut self, frn: Frn, actual: &[LinkTarget])
        requires
            old(self).wf(),
            old(self).room(
                actual@.len() as int,
                links::raw_sum(links::targets_of(actual@)),
                links::folded_sum(links::targets_of(actual@)),
            ),
            links::targets_ok(
                links::targets_of(actual@),
                old(self).model().slots.len() as int,
            ),
        ensures
            final(self).wf(),
            final(self).model() == (if actual@.len() == 0 {
                old(self).model().deleted(frn).0
            } else {
                old(self).model().relinked(
                    frn,
                    old(self).model().head(frn) matches Some(h) && old(self).model().ent(h).dir,
                    links::targets_of(actual@),
                )
            }),
    {
        if actual.len() == 0 {
            let _ = self.delete_frn(frn);
            return ;
        }
        let is_dir = match self.head_of(frn) {
            Some(head) => {
                proof {
                    self.lemma_head(types::record_of(frn.0));
                    self.lemma_live(head as int);
                }
                self.entries.flags(head).contains(EntryFlags::DIR)
            },
            None => false,
        };
        self.set_chain_links(frn, is_dir, actual);
    }

    /// Does one step.
    fn apply_op(&mut self, op: &UsnOp, outcome: &mut ApplyOutcome, Ghost(unknown): Ghost<Seq<Frn>>)
        requires
            old(self).wf(),
            op_short(op.model()),
            old(self).affords(op_cost(op.model())),
            old(outcome).anomalies@ == anomalies_of(unknown),
        ensures
            final(self).wf(),
            ({
                let s = Applied {
                    volume: old(self).model(),
                    needs_stat: old(outcome).needs_stat@,
                    needs_link_reconcile: old(outcome).needs_link_reconcile@,
                    unknown,
                };
                let t = model::op_applied(s, op.model());
                &&& final(self).model() == t.volume
                &&& final(outcome).needs_stat@ == t.needs_stat
                &&& final(outcome).needs_link_reconcile@ == t.needs_link_reconcile
                &&& final(outcome).anomalies@ == anomalies_of(t.unknown)
                &&& final(outcome).wants_compact == old(outcome).wants_compact
            }),
            final(self).spent(*old(self), op_cost(op.model())),
    {
        match op {
            UsnOp::Upsert { frn, parent, name, name_lossy, is_dir } => {
                if self.upsert_link(*frn, *parent, name.as_slice(), *name_lossy, *is_dir) {
                    outcome.needs_link_reconcile.push(*frn);
                }
            },
            UsnOp::Delete { frn } => {
                if !self.delete_frn(*frn) {
                    self.stats.delete_of_unknown = self.stats.delete_of_unknown + 1;
                    outcome.anomalies.push(Anomaly::DeleteOfUnknown { frn: *frn });
                    proof {
                        assert(self.model().slots =~= old(self).model().slots);
                        assert(outcome.anomalies@ =~= anomalies_of(unknown.push(*frn)));
                    }
                }
            },
            UsnOp::LinkDirty { frn } => {
                outcome.needs_link_reconcile.push(*frn);
            },
            UsnOp::StatDirty { frn } => {
                outcome.needs_stat.push(*frn);
            },
            UsnOp::RenameOldSeen { .. } => {
                self.stats.rename_old_seen = self.stats.rename_old_seen + 1;
                proof {
                    assert(self.model().slots =~= old(self).model().slots);
                }
            },
        }
    }

    /// No record names a parent with the record number of the file itself,
    /// unless it is the file itself.
    pub open spec fn parents_apart(records: Seq<RecordModel>) -> bool {
        forall|k: int|
            0 <= k < records.len() ==> (types::record_of((#[trigger] records[k]).frn.0)
                == types::record_of(records[k].parent_frn.0) ==> records[k].frn
                == records[k].parent_frn)
    }

    /// Applies a batch of journal records, in order.
    #[verifier::rlimit(60)]
    pub fn apply_batch(&mut self, records: &[ParsedUsnRecord]) -> (outcome: ApplyOutcome)
        requires
            old(self).wf(),
            batch_short(models_of(records@)),
            old(self).affords(batch_cost(models_of(records@))),
            old(self).model().generation < u64::MAX,
        ensures
            final(self).wf(),
            ({
                let t = model::batch_applied(old(self).model(), models_of(records@));
                &&& final(self).model() == t.volume
                &&& outcome.needs_stat@ == t.needs_stat
                &&& outcome.needs_link_reconcile@ == t.needs_link_reconcile
                &&& outcome.anomalies@ == anomalies_of(t.unknown)
            }),
            outcome.wants_compact == final(self).wants_compact(),
            final(self).spent(*old(self), batch_cost(models_of(records@))),
    {
        let ghost all = models_of(records@);
        let ghost start = model::unapplied(self.model());
        let mut outcome = ApplyOutcome {
            needs_stat: Vec::new(),
            needs_link_reconcile: Vec::new(),
            anomalies: Vec::new(),
            wants_compact: false,
        };
        let ghost mut now = start;
        let mut i: usize = 0;
        proof {
            assert(all.take(0) =~= Seq::empty());
            assert(outcome.needs_stat@ =~= now.needs_stat);
            assert(outcome.needs_link_reconcile@ =~= now.needs_link_reconcile);
            assert(outcome.anomalies@ =~= anomalies_of(now.unknown));
        }
        while i < records.len()
            invariant
                i <= records@.len(),
                all == models_of(records@),
                start == model::unapplied(old(self).model()),
                now == model::records_applied(start, all.take(i as int)),
                self.wf(),
                self.model() == now.volume,
                outcome.needs_stat@ == now.needs_stat,
                outcome.needs_link_reconcile@ == now.needs_link_reconcile,
                outcome.anomalies@ == anomalies_of(now.unknown),
                batch_short(all),
                old(self).affords(batch_cost(all)),
                self.spent(*old(self), batch_cost(all.take(i as int))),
                self.model().generation == old(self).model().generation,
            decreases records@.len() - i,
        {
            let list = steps::ops_for(&records[i]);
            let ops_slice = list.as_slice();
            let ghost todo = steps::steps(all[i as int]);
            let ghost before = *self;
            let ghost from = now;
            let mut j: usize = 0;
            proof {
                assert(all[i as int] == records@[i as int].model());
                assert(todo == steps::op_models(ops_slice@));
                assert(todo.take(0) =~= Seq::empty());
                lemma_batch_cost(all, i as int);
                lemma_batch_cost(all, i + 1);
            }
            while j < ops_slice.len()
                invariant
                    j <= ops_slice@.len(),
                    i < all.len(),
                    todo == steps::op_models(ops_slice@),
                    todo == steps::steps(all[i as int]),
                    now == model::ops_applied(from, todo.take(j as int)),
                    self.wf(),
                    self.model() == now.volume,
                    outcome.needs_stat@ == now.needs_stat,
                    outcome.needs_link_reconcile@ == now.needs_link_reconcile,
                    outcome.anomalies@ == anomalies_of(now.unknown),
                    ops_short(todo),
                    before.affords(ops_cost(todo)),
                    self.spent(before, ops_cost(todo.take(j as int))),
                    self.model().generation == before.model().generation,
                decreases ops_slice@.len() - j,
            {
                proof {
                    lemma_ops_cost(todo, j as int);
                    lemma_ops_cost(todo, j + 1);
                    assert(todo.take(j + 1).drop_last() =~= todo.take(j as int));
                    assert(todo.take(j + 1).last() == todo[j as int]);
                    assert(todo[j as int] == ops_slice@[j as int].model());
                    assert(op_short(todo[j as int]));
                    if Self::parents_apart(all) {
                        let r = all[i as int];
                        assert(types::record_of(r.frn.0) == types::record_of(r.parent_frn.0)
                            ==> r.frn == r.parent_frn);
                        lemma_upsert_names_record(r, j as int);
                    }
                    lemma_generation(now, todo[j as int]);
                }
                self.apply_op(&ops_slice[j], &mut outcome, Ghost(now.unknown));
                proof {
                    now = model::op_applied(now, todo[j as int]);
                }
                j = j + 1;
            }
            proof {
                assert(todo.take(todo.len() as int) =~= todo);
                assert(all.take(i + 1).drop_last() =~= all.take(i as int));
                assert(all.take(i + 1).last() == all[i as int]);
            }
            i = i + 1;
        }
        proof {
            assert(all.take(all.len() as int) =~= all);
        }
        self.generation = self.generation + 1;
        proof {
            assert(self.model().slots =~= now.volume.slots);
        }
        outcome.wants_compact = self.names.should_compact();
        outcome
    }

    /// The targets that the long names stand for, after each parent was given
    /// an entry.
    #[verifier::rlimit(60)]
    fn resolve_names(&mut self, names: &Vec<parse::LayoutName>) -> (out: Vec<LinkTarget>)
        requires
            old(self).wf(),
            ({
                let n = long_names(parse::name_models(names@)).len() as int;
                old(self).room(n, ops::PLACEHOLDER_COST * n, ops::PLACEHOLDER_COST * n)
            }),
        ensures
            final(self).wf(),
            ({
                let long = long_names(parse::name_models(names@));
                let n = long.len() as int;
                &&& final(self).model() == old(self).model().targeted(long).0
                &&& links::targets_of(out@) == old(self).model().targeted(long).1
                &&& out@.len() == n
                &&& final(self).grown(
                    *old(self),
                    n,
                    ops::PLACEHOLDER_COST * n,
                    ops::PLACEHOLDER_COST * n,
                )
                &&& forall|k: int|
                    0 <= k < n ==> (#[trigger] out@[k]).parent < final(self).model().slots.len()
                &&& parents_distinct(long) ==> forall|k: int|
                    0 <= k < n ==> final(self).model().has((#[trigger] out@[k]).parent as int)
            }),
    {
        let ghost nm = parse::name_models(names@);
        let ghost long = long_names(nm);
        let ghost v0 = self.model();
        let mut out: Vec<LinkTarget> = Vec::new();
        let mut i: usize = 0;
        proof {
            assert(nm.take(0) =~= Seq::empty());
            assert(links::targets_of(out@) =~= Seq::empty());
        }
        while i < names.len()
            invariant
                i <= names@.len(),
                nm == parse::name_models(names@),
                long == long_names(nm),
                v0 == old(self).model(),
                self.wf(),
                self.model() == v0.targeted(long_names(nm.take(i as int))).0,
                links::targets_of(out@) == v0.targeted(long_names(nm.take(i as int))).1,
                out@.len() == long_names(nm.take(i as int)).len(),
                old(self).room(
                    long.len() as int,
                    ops::PLACEHOLDER_COST * long.len() as int,
                    ops::PLACEHOLDER_COST * long.len() as int,
                ),
                self.grown(
                    *old(self),
                    out@.len() as int,
                    ops::PLACEHOLDER_COST * out@.len() as int,
                    ops::PLACEHOLDER_COST * out@.len() as int,
                ),
                forall|k: int|
                    0 <= k < out@.len() ==> (#[trigger] out@[k]).parent < self.model().slots.len(),
                parents_distinct(long) ==> forall|k: int|
                    0 <= k < out@.len() ==> self.model().head(long[k].parent_frn) == Some(
                        (#[trigger] out@[k]).parent,
                    ),
            decreases names@.len() - i,
        {
            let n = &names[i];
            let ghost so_far = long_names(nm.take(i as int));
            let ghost out0 = out@;
            proof {
                assert(nm[i as int] == n.model());
                lemma_long_step(nm, i as int);
                lemma_long_prefix(nm, i as int);
                lemma_long_prefix(nm, i + 1);
            }
            if !n.dos_only {
                let ghost one = Named {
                    parent_frn: n.parent_frn,
                    name: n.name@,
                    lossy: n.name_lossy,
                };
                let ghost next = so_far.push(one);
                proof {
                    assert(next == long_names(nm.take(i + 1)));
                    assert(next.drop_last() =~= so_far);
                    assert(next.len() <= long.len());
                    assert(long[out0.len() as int] == one) by {
                        assert(long.take(next.len() as int)[out0.len() as int] == one);
                    }
                }
                let parent = self.resolve_or_placeholder_parent(n.parent_frn);
                let mut bytes: Vec<u8> = Vec::new();
                bytes.extend_from_slice(n.name.as_slice());
                assert(bytes@ =~= n.name@);
                out.push(LinkTarget { parent, name: WtfName::new(bytes, n.name_lossy) });
                proof {
                    assert(links::targets_of(out@) =~= links::targets_of(out0).push(
                        Target { parent, name: one.name, lossy: one.lossy },
                    ));
                    assert forall|k: int| 0 <= k < out@.len() implies (#[trigger] out@[k]).parent
                        < self.model().slots.len() by {
                        if k < out0.len() {
                            assert(out0[k].parent < self.model().slots.len());
                        }
                    }
                    if parents_distinct(long) {
                        assert forall|k: int| 0 <= k < out@.len() implies self.model().head(
                            long[k].parent_frn,
                        ) == Some((#[trigger] out@[k]).parent) by {
                            if k < out0.len() {
                                assert(out0[k] == out@[k]);
                                assert(long[out0.len() as int].parent_frn == n.parent_frn);
                            }
                        }
                    }
                }
            }
            i = i + 1;
        }
        proof {
            assert(nm.take(nm.len() as int) =~= nm);
            if parents_distinct(long) {
                assert forall|k: int| 0 <= k < out@.len() implies self.model().has(
                    (#[trigger] out@[k]).parent as int,
                ) by {
                    assert(self.model().head(long[k].parent_frn) == Some(out@[k].parent));
                    self.lemma_head(types::record_of(long[k].parent_frn.0));
                }
            }
        }
        out
    }

    /// Gives a file the links for the long names that it lacks.
    #[verifier::rlimit(60)]
    fn join_names(&mut self, frn: Frn, names: &Vec<parse::LayoutName>)
        requires
            old(self).wf(),
            names_short(long_names(parse::name_models(names@))),
            old(self).affords(names_cost(long_names(parse::name_models(names@)))),
        ensures
            final(self).wf(),
            final(self).model() == old(self).model().all_joined(
                frn,
                long_names(parse::name_models(names@)),
            ),
            final(self).spent(
                *old(self),
                names_cost(long_names(parse::name_models(names@))),
            ),
    {
        let ghost nm = parse::name_models(names@);
        let ghost long = long_names(nm);
        let ghost v0 = self.model();
        let mut i: usize = 0;
        proof {
            assert(nm.take(0) =~= Seq::empty());
        }
        while i < names.len()
            invariant
                i <= names@.len(),
                nm == parse::name_models(names@),
                long == long_names(nm),
                v0 == old(self).model(),
                self.wf(),
                self.model() == v0.all_joined(frn, long_names(nm.take(i as int))),
                names_short(long),
                old(self).affords(names_cost(long)),
                self.spent(*old(self), names_cost(long_names(nm.take(i as int)))),
            decreases names@.len() - i,
        {
            let n = &names[i];
            let ghost so_far = long_names(nm.take(i as int));
            proof {
                assert(nm[i as int] == n.model());
                lemma_long_step(nm, i as int);
                lemma_long_prefix(nm, i as int);
                lemma_long_prefix(nm, i + 1);
            }
            if !n.dos_only {
                let ghost one = Named {
                    parent_frn: n.parent_frn,
                    name: n.name@,
                    lossy: n.name_lossy,
                };
                let ghost next = so_far.push(one);
                let ghost before = *self;
                proof {
                    assert(next == long_names(nm.take(i + 1)));
                    assert(next.drop_last() =~= so_far);
                    lemma_names_cost(long, so_far.len() as int);
                    lemma_names_cost(long, next.len() as int);
                    assert(long[so_far.len() as int] == one) by {
                        assert(long.take(next.len() as int)[so_far.len() as int] == one);
                    }
                    assert(ops::short_name(long[so_far.len() as int].name));
                }
                let parent = self.resolve_or_placeholder_parent(n.parent_frn);
                if !self.chain_has_link(frn, parent, n.name.as_slice()) {
                    self.add_link(frn, parent, n.name.as_slice(), n.name_lossy);
                }
                assert(self.model() == before.model().joined(frn, one));
            }
            i = i + 1;
        }
        proof {
            assert(nm.take(nm.len() as int) =~= nm);
        }
    }

    /// A file was read from the volume with its names, size and time.
    #[verifier::rlimit(40)]
    pub fn enrich(&mut self, file: &LayoutFile)
        requires
            old(self).wf(),
            names_short(long_names(file.model().names)),
            old(self).affords(file_cost(long_names(file.model().names))),
        ensures
            final(self).wf(),
            final(self).model() == old(self).model().enriched(
                file.frn,
                record::directory(file.attributes),
                long_names(file.model().names),
                file.size,
                file.mtime_ft,
            ),
            final(self).spent(*old(self), file_cost(long_names(file.model().names))),
    {
        let ghost long = long_names(file.model().names);
        let is_dir = file.attributes & record::FILE_ATTRIBUTE_DIRECTORY != 0;
        proof {
            lemma_names_cost(long, 0);
            assert(file.model().names == parse::name_models(file.names@));
        }
        if self.head_of(file.frn).is_none() {
            let desired = self.resolve_names(&file.names);
            proof {
                lemma_targeted(old(self).model(), long);
                let targets = links::targets_of(desired@);
                assert forall|k: int| 0 <= k < targets.len() implies ops::short_name(
                    (#[trigger] targets[k]).name,
                ) && targets[k].parent < self.model().slots.len() by {
                    assert(targets[k] == desired@[k].model());
                    assert(ops::short_name(long[k].name));
                }
                if parents_distinct(long) {
                    assert forall|k: int| 0 <= k < targets.len() implies self.model().has(
                        (#[trigger] targets[k]).parent as int,
                    ) by {
                        assert(targets[k] == desired@[k].model());
                    }
                }
            }
            if desired.len() == 0 {
                assert(self.model() =~= old(self).model());
                return ;
            }
            self.set_chain_links(file.frn, is_dir, desired.as_slice());
        }
        if !is_dir {
            self.join_names(file.frn, &file.names);
        }
        let size = if is_dir {
            None
        } else {
            file.size
        };
        self.measure(file.frn, size, file.mtime_ft);
    }
}

proof fn lemma_upsert_names_record(r: RecordModel, j: int)
    requires
        0 <= j < steps::steps(r).len(),
    ensures
        steps::steps(r)[j] matches OpModel::Upsert { frn, parent, .. } ==> frn == r.frn && parent
            == r.parent_frn,
{
}

/// A step leaves the generation alone.
proof fn lemma_generation(s: Applied, op: OpModel)
    ensures
        model::op_applied(s, op).volume.generation == s.volume.generation,
{
    match op {
        OpModel::Upsert { frn, parent, name, name_lossy, is_dir } => {
            let r = types::record_of(parent.0);
            let v = s.volume;
            lemma_ended_generation(v, v.chains[r]);
            let w = v.resolved(parent).0;
            lemma_ended_generation(w, w.chains[types::record_of(frn.0)]);
        },
        OpModel::Delete { frn } => {
            lemma_ended_generation(s.volume, s.volume.chains[types::record_of(frn.0)]);
        },
        _ => {},
    }
}

proof fn lemma_ended_generation(v: Volume, c: Seq<EntryIdx>)
    ensures
        v.all_ended(c).generation == v.generation,
    decreases c.len(),
{
    if c.len() > 0 {
        lemma_ended_generation(v, c.drop_last());
    }
}

} // verus!
