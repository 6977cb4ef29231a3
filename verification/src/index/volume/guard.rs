//! Changes that are made where there is room for them.

use super::apply;
use super::apply::{ApplyOutcome, Cost};
use super::links;
use super::links::LinkTarget;
use super::ops;
use super::VolumeIndex;
use crate::fold;
use crate::index::names::{MAX_NAME, RAW_IN_FOLDED};
use crate::layout::parse;
use crate::layout::parse::LayoutFile;
use crate::types::{Frn, NIL};
use crate::usn::ops as steps;
use crate::usn::ops::UsnOp;
use crate::usn::record::ParsedUsnRecord;
use vstd::prelude::*;

verus! {

/// More than an index can ever take.
pub const TOO_MUCH: u64 = 0x1_0000_0000;

/// What changes take at most.
#[derive(Clone, Copy, Debug, PartialEq, Eq, Structural)]
pub struct Need {
    pub n: u64,
    pub raw: u64,
    pub folded: u64,
}

impl Need {
    pub open spec fn model(&self) -> Cost {
        Cost { n: self.n as int, raw: self.raw as int, folded: self.folded as int }
    }

    /// No more than what an index might take.
    pub open spec fn small(&self) -> bool {
        self.n <= TOO_MUCH && self.raw <= TOO_MUCH && self.folded <= TOO_MUCH
    }

    fn none() -> (r: Need)
        ensures
            r.model() == apply::no_cost(),
            r.small(),
    {
        Need { n: 0, raw: 0, folded: 0 }
    }

    /// The sum, unless it is more than an index can take.
    fn plus(self, other: Need) -> (r: Option<Need>)
        requires
            self.small(),
            other.small(),
        ensures
            match r {
                Some(sum) => sum.model() == self.model().plus(other.model()) && sum.small(),
                None => over(self.model().plus(other.model())),
            },
    {
        let sum = Need {
            n: self.n + other.n,
            raw: self.raw + other.raw,
            folded: self.folded + other.folded,
        };
        if sum.n > TOO_MUCH || sum.raw > TOO_MUCH || sum.folded > TOO_MUCH {
            None
        } else {
            Some(sum)
        }
    }
}

/// More than an index can take.
pub open spec fn over(c: Cost) -> bool {
    c.n > TOO_MUCH || c.raw > TOO_MUCH || c.folded > TOO_MUCH
}

/// What a name in a directory takes, if it can be stored.
fn need_of_name(name: &[u8]) -> (r: Option<Need>)
    ensures
        match r {
            Some(need) => ops::short_name(name@) && need.model() == apply::name_cost(name@)
                && need.small(),
            None => !ops::short_name(name@),
        },
{
    if name.len() > MAX_NAME {
        return None;
    }
    let folded = fold::fold(name);
    if folded.len() > MAX_NAME {
        return None;
    }
    Some(
        Need {
            n: 2,
            raw: ops::PLACEHOLDER_COST as u64 + name.len() as u64 + 1,
            folded: ops::PLACEHOLDER_COST as u64 + folded.len() as u64 + 1,
        },
    )
}

/// What the steps of a record take.
fn need_of_record(rec: &ParsedUsnRecord) -> (r: Option<Need>)
    ensures
        match r {
            Some(need) => apply::ops_short(steps::steps(rec.model())) && need.model()
                == apply::ops_cost(steps::steps(rec.model())) && need.small(),
            None => !apply::ops_short(steps::steps(rec.model())) || over(
                apply::ops_cost(steps::steps(rec.model())),
            ),
        },
{
    let list = steps::ops_for(rec);
    let todo = list.as_slice();
    let ghost all = steps::op_models(todo@);
    let mut need = Need::none();
    let mut i: usize = 0;
    assert(all.take(0) =~= Seq::empty());
    while i < todo.len()
        invariant
            i <= todo@.len(),
            all == steps::op_models(todo@),
            all == steps::steps(rec.model()),
            need.small(),
            need.model() == apply::ops_cost(all.take(i as int)),
            apply::ops_short(all.take(i as int)),
        decreases todo@.len() - i,
    {
        proof {
            assert(all[i as int] == todo@[i as int].model());
            apply::lemma_ops_cost(all, i as int);
            apply::lemma_ops_cost(all, i + 1);
        }
        let one = match &todo[i] {
            UsnOp::Upsert { name, .. } => match need_of_name(name.as_slice()) {
                Some(one) => one,
                None => {
                    assert(!apply::op_short(all[i as int]));
                    return None;
                },
            },
            _ => Need { n: 1, raw: 0, folded: 0 },
        };
        need = match need.plus(one) {
            Some(sum) => sum,
            None => {
                return None;
            },
        };
        proof {
            assert forall|k: int| 0 <= k < all.take(i + 1).len() implies apply::op_short(
                #[trigger] all.take(i + 1)[k],
            ) by {
                if k < i {
                    assert(all.take(i as int)[k] == all[k]);
                    assert(apply::op_short(all.take(i as int)[k]));
                }
            }
        }
        i = i + 1;
    }
    assert(all.take(all.len() as int) =~= all);
    Some(need)
}

/// What a batch of records takes.
fn need_of_batch(records: &[ParsedUsnRecord]) -> (r: Option<Need>)
    ensures
        match r {
            Some(need) => apply::batch_short(apply::models_of(records@)) && need.model()
                == apply::batch_cost(apply::models_of(records@)),
            None => !apply::batch_short(apply::models_of(records@)) || over(
                apply::batch_cost(apply::models_of(records@)),
            ),
        },
{
    let ghost all = apply::models_of(records@);
    let mut need = Need::none();
    let mut i: usize = 0;
    assert(all.take(0) =~= Seq::empty());
    while i < records.len()
        invariant
            i <= records@.len(),
            all == apply::models_of(records@),
            need.small(),
            need.model() == apply::batch_cost(all.take(i as int)),
            forall|k: int|
                0 <= k < i ==> apply::ops_short(steps::steps(#[trigger] all[k])),
        decreases records@.len() - i,
    {
        proof {
            assert(all[i as int] == records@[i as int].model());
            apply::lemma_batch_cost(all, i as int);
            apply::lemma_batch_cost(all, i + 1);
        }
        let one = match need_of_record(&records[i]) {
            Some(one) => one,
            None => {
                proof {
                    if apply::ops_short(steps::steps(all[i as int])) {
                        assert(over(apply::batch_cost(all.take(i + 1))));
                    } else {
                        assert(!apply::batch_short(all));
                    }
                }
                return None;
            },
        };
        need = match need.plus(one) {
            Some(sum) => sum,
            None => {
                return None;
            },
        };
        i = i + 1;
    }
    assert(all.take(all.len() as int) =~= all);
    Some(need)
}

/// What the long names of a file take.
fn need_of_names(names: &Vec<parse::LayoutName>) -> (r: Option<Need>)
    ensures
        ({
            let long = apply::long_names(parse::name_models(names@));
            match r {
                Some(need) => apply::names_short(long) && need.model() == apply::file_cost(long),
                None => !apply::names_short(long) || over(apply::file_cost(long)),
            }
        }),
{
    let ghost nm = parse::name_models(names@);
    let ghost long = apply::long_names(nm);
    let mut need = Need::none();
    let mut i: usize = 0;
    proof {
        assert(nm.take(0) =~= Seq::empty());
    }
    while i < names.len()
        invariant
            i <= names@.len(),
            nm == parse::name_models(names@),
            long == apply::long_names(nm),
            need.small(),
            need.model() == apply::names_cost(apply::long_names(nm.take(i as int))),
            apply::names_short(apply::long_names(nm.take(i as int))),
        decreases names@.len() - i,
    {
        let n = &names[i];
        let ghost so_far = apply::long_names(nm.take(i as int));
        proof {
            assert(nm[i as int] == n.model());
            apply::lemma_long_step(nm, i as int);
            apply::lemma_long_prefix(nm, i + 1);
        }
        if !n.dos_only {
            let ghost next = apply::long_names(nm.take(i + 1));
            proof {
                assert(next.drop_last() =~= so_far);
                assert(long.take(next.len() as int) == next);
                apply::lemma_names_cost(long, next.len() as int);
            }
            let one = match need_of_name(n.name.as_slice()) {
                Some(one) => one,
                None => {
                    proof {
                        assert(long.take(next.len() as int)[so_far.len() as int].name == n.name@);
                        assert(!ops::short_name(long[so_far.len() as int].name));
                    }
                    return None;
                },
            };
            need = match need.plus(one) {
                Some(sum) => sum,
                None => {
                    return None;
                },
            };
            proof {
                assert forall|k: int| 0 <= k < next.len() implies ops::short_name(
                    (#[trigger] next[k]).name,
                ) by {
                    if k < so_far.len() {
                        assert(next[k] == so_far[k]);
                    }
                }
            }
        }
        i = i + 1;
    }
    assert(nm.take(nm.len() as int) =~= nm);
    need.plus(need)
}

/// The links of a file can be stored below these slots, and what they take.
fn need_of_links(actual: &[LinkTarget], slots: usize) -> (r: Option<Need>)
    ensures
        ({
            let all = links::targets_of(actual@);
            match r {
                Some(need) => links::targets_ok(all, slots as int) && need.n == all.len()
                    && need.raw == links::raw_sum(all) && need.folded == links::folded_sum(all),
                None => !links::targets_ok(all, slots as int) || all.len() > TOO_MUCH
                    || links::raw_sum(all) > TOO_MUCH || links::folded_sum(all) > TOO_MUCH,
            }
        }),
{
    let ghost all = links::targets_of(actual@);
    let mut need = Need::none();
    let mut i: usize = 0;
    proof {
        assert(all.take(0) =~= Seq::empty());
    }
    while i < actual.len()
        invariant
            i <= actual@.len(),
            all == links::targets_of(actual@),
            need.small(),
            need.n == i,
            need.raw == links::raw_sum(all.take(i as int)),
            need.folded == links::folded_sum(all.take(i as int)),
            forall|k: int|
                0 <= k < i ==> ops::short_name((#[trigger] all[k]).name) && (all[k].parent == NIL
                    || all[k].parent < slots),
        decreases actual@.len() - i,
    {
        let link = &actual[i];
        proof {
            assert(all[i as int] == link.model());
            links::lemma_sums(all, i as int);
            links::lemma_sums(all, i + 1);
        }
        if link.parent != NIL && link.parent as usize >= slots {
            assert(!links::targets_ok(all, slots as int));
            return None;
        }
        let one = match need_of_name(link.name.bytes.as_slice()) {
            Some(one) => Need {
                n: 1,
                raw: one.raw - ops::PLACEHOLDER_COST as u64,
                folded: one.folded - ops::PLACEHOLDER_COST as u64,
            },
            None => {
                assert(!links::targets_ok(all, slots as int));
                return None;
            },
        };
        need = match need.plus(one) {
            Some(sum) => sum,
            None => {
                return None;
            },
        };
        i = i + 1;
    }
    assert(all.take(all.len() as int) =~= all);
    Some(need)
}

impl VolumeIndex {
    /// There is space for so many links and bytes.
    pub fn has_space(&self, n: u64, raw: u64, folded: u64) -> (r: bool)
        requires
            self.wf(),
        ensures
            r == self.space(n as int, raw as int, folded as int),
    {
        proof {
            self.lemma_dirty();
            self.names.lemma_wf();
            self.entries.lemma_wf();
        }
        if n >= NIL as u64 || raw >= RAW_IN_FOLDED as u64 || folded >= RAW_IN_FOLDED as u64 {
            return false;
        }
        let load = self.dirty as u128 + self.entries.live() as u128;
        self.entries.capacity() as u64 + n < NIL as u64 && self.names.ids() as u64 + n < NIL as u64
            && self.names.raw_mem().used + raw < RAW_IN_FOLDED as u64
            && self.names.folded_haystack().len() as u64 + folded < RAW_IN_FOLDED as u64 && load + 2
            * n as u128 <= u64::MAX as u128
    }

    /// There is room for so many links and bytes, and the counters have not
    /// run out.
    pub fn has_room(&self, n: u64, raw: u64, folded: u64) -> (r: bool)
        requires
            self.wf(),
        ensures
            r == self.room(n as int, raw as int, folded as int),
    {
        let top = u64::MAX as u128;
        let more = n as u128;
        self.has_space(n, raw, folded) && self.live_placeholders as u128 + more <= top
            && self.stats.placeholders_created as u128 + more <= top
            && self.stats.delete_of_unknown as u128 + more <= top
            && self.stats.rename_old_seen as u128 + more <= top && self.stats.stale_slots as u128
            + more <= top
    }

    /// Does what `insert_enum` does, where there is room for it. Otherwise
    /// nothing happens, and the result is `false`.
    pub fn try_insert_enum(&mut self, rec: &ParsedUsnRecord) -> (done: bool)
        requires
            old(self).wf(),
        ensures
            final(self).wf(),
            done == (ops::short_name(rec.name@) && old(self).affords(
                apply::name_cost(rec.name@),
            )),
            done ==> final(self).model() == old(self).model().upserted(
                rec.frn,
                rec.parent_frn,
                rec.name@,
                rec.name_lossy,
                crate::usn::record::directory(rec.attributes),
            ).0,
            !done ==> *final(self) == *old(self),
    {
        match need_of_name(rec.name.as_slice()) {
            Some(need) => {
                if !self.has_room(need.n, need.raw, need.folded) {
                    return false;
                }
                self.insert_enum(rec);
                true
            },
            None => false,
        }
    }

    /// Does what `enrich` does, where there is room for it. Otherwise nothing
    /// happens, and the result is `false`.
    pub fn try_enrich(&mut self, file: &LayoutFile) -> (done: bool)
        requires
            old(self).wf(),
        ensures
            final(self).wf(),
            done == (apply::names_short(apply::long_names(file.model().names)) && old(
                self,
            ).affords(apply::file_cost(apply::long_names(file.model().names)))),
            done ==> final(self).model() == old(self).model().enriched(
                file.frn,
                crate::usn::record::directory(file.attributes),
                apply::long_names(file.model().names),
                file.size,
                file.mtime_ft,
            ),
            !done ==> *final(self) == *old(self),
    {
        proof {
            self.lemma_dirty();
            self.names.lemma_wf();
        }
        match need_of_names(&file.names) {
            Some(need) => {
                if !self.has_room(need.n, need.raw, need.folded) {
                    return false;
                }
                self.enrich(file);
                true
            },
            None => false,
        }
    }

    /// Does what `apply_batch` does, where there is room for it. Otherwise
    /// nothing happens, and there is no outcome.
    pub fn try_apply_batch(&mut self, records: &[ParsedUsnRecord]) -> (r: Option<ApplyOutcome>)
        requires
            old(self).wf(),
        ensures
            final(self).wf(),
            r is Some <==> apply::batch_short(apply::models_of(records@)) && old(self).affords(
                apply::batch_cost(apply::models_of(records@)),
            ) && old(self).model().generation < u64::MAX,
            r matches Some(outcome) ==> {
                let t = crate::index::model::batch_applied(
                    old(self).model(),
                    apply::models_of(records@),
                );
                &&& final(self).model() == t.volume
                &&& outcome.needs_stat@ == t.needs_stat
                &&& outcome.needs_link_reconcile@ == t.needs_link_reconcile
                &&& outcome.anomalies@ == apply::anomalies_of(t.unknown)
                &&& outcome.wants_compact == final(self).wants_compact()
            },
            r is None ==> *final(self) == *old(self),
    {
        proof {
            self.lemma_dirty();
            self.names.lemma_wf();
        }
        match need_of_batch(records) {
            Some(need) => {
                if !self.has_room(need.n, need.raw, need.folded) || self.generation == u64::MAX {
                    return None;
                }
                Some(self.apply_batch(records))
            },
            None => None,
        }
    }

    /// Does what `reconcile_links` does, where there is room for it and the
    /// parents are slots of the index. Otherwise nothing happens, and the
    /// result is `false`.
    pub fn try_reconcile_links(&mut self, frn: Frn, actual: &[LinkTarget]) -> (done: bool)
        requires
            old(self).wf(),
        ensures
            final(self).wf(),
            ({
                let all = links::targets_of(actual@);
                &&& done == (links::targets_ok(all, old(self).model().slots.len() as int) && old(
                    self,
                ).room(all.len() as int, links::raw_sum(all), links::folded_sum(all)))
                &&& done ==> final(self).model() == (if actual@.len() == 0 {
                    old(self).model().deleted(frn).0
                } else {
                    old(self).model().relinked(
                        frn,
                        old(self).model().head(frn) matches Some(h) && old(self).model().ent(h).dir,
                        all,
                    )
                })
            }),
            !done ==> *final(self) == *old(self),
    {
        proof {
            self.lemma_dirty();
            self.names.lemma_wf();
        }
        match need_of_links(actual, self.entries.capacity()) {
            Some(need) => {
                if !self.has_room(need.n, need.raw, need.folded) {
                    return false;
                }
                self.reconcile_links(frn, actual);
                true
            },
            None => false,
        }
    }
}

} // verus!
