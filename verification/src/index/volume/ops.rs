//! What changes an index.

use super::VolumeIndex;
use crate::fold;
use crate::index::graph;
use crate::index::model;
use crate::index::model::Volume;
use crate::index::names::{MAX_NAME, RAW_IN_FOLDED};
use crate::index::standins;
use crate::index::store;
use crate::index::store::{EntryFlags, Slot};
use crate::index::volume;
use crate::types;
use crate::types::{EntryIdx, Frn, NIL};
use vstd::prelude::*;

verus! {

/// A name of a length that can be stored.
pub open spec fn short_name(name: Seq<u8>) -> bool {
    name.len() <= MAX_NAME && fold::folded(name).len() <= MAX_NAME
}

/// What a name takes as it is written.
pub open spec fn raw_cost(name: Seq<u8>) -> int {
    name.len() as int + 1
}

/// What a name takes folded.
pub open spec fn folded_cost(name: Seq<u8>) -> int {
    fold::folded(name).len() as int + 1
}

/// What the name of a placeholder takes.
pub const PLACEHOLDER_COST: usize = 13;

pub(super) proof fn lemma_placeholder_name()
    ensures
        short_name(model::placeholder_name()),
        raw_cost(model::placeholder_name()) == PLACEHOLDER_COST,
        folded_cost(model::placeholder_name()) == PLACEHOLDER_COST,
{
    assert(fold::is_ascii_bytes(model::placeholder_name()));
}

/// Which chains there are does not matter to the end of entries.
pub(super) proof fn lemma_ended_rechained(v: Volume, chains: Map<u64, Seq<EntryIdx>>, c: Seq<EntryIdx>)
    requires
        forall|k: int| 0 <= k < c.len() ==> #[trigger] c[k] < v.slots.len(),
    ensures
        (Volume { chains, ..v }).all_ended(c) == (Volume { chains, ..v.all_ended(c) }),
        v.all_ended(c).chains == v.chains,
        v.all_ended(c).slots.len() == v.slots.len(),
        v.all_ended(c).load() == v.load(),
        v.all_ended(c).stats == v.stats,
        v.all_ended(c).root == v.root,
        v.all_ended(c).lost_found == v.lost_found,
        v.all_ended(c).generation == v.generation,
        v.placeholders >= 0 ==> 0 <= v.all_ended(c).placeholders <= v.placeholders,
        forall|i: int|
            0 <= i < v.slots.len() && !c.contains(i as EntryIdx) && i <= EntryIdx::MAX ==> (
            #[trigger] v.all_ended(c).slots[i]) == v.slots[i],
    decreases c.len(),
{
    if c.len() > 0 {
        assert forall|k: int| 0 <= k < c.drop_last().len() implies #[trigger] c.drop_last()[k]
            < v.slots.len() by {
            assert(c[k] < v.slots.len());
        }
        lemma_ended_rechained(v, chains, c.drop_last());
        assert(c[c.len() - 1] < v.slots.len());
        assert forall|i: int|
            0 <= i < v.slots.len() && !c.contains(i as EntryIdx) && i <= EntryIdx::MAX implies (
        #[trigger] v.all_ended(c).slots[i]) == v.slots[i] by {
            assert(!c.drop_last().contains(i as EntryIdx)) by {
                if c.drop_last().contains(i as EntryIdx) {
                    let k = choose|k: int|
                        0 <= k < c.drop_last().len() && c.drop_last()[k] == i as EntryIdx;
                    assert(c[k] == i as EntryIdx);
                }
            }
            assert(c.last() != i as EntryIdx) by {
                assert(c.contains(c.last()));
            }
        }
    }
}

impl VolumeIndex {
    /// There is space for `n` more links whose names take so many bytes.
    pub open spec fn space(&self, n: int, raw: int, folded: int) -> bool {
        let v = self.model();
        &&& v.slots.len() + n < NIL
        &&& self.ids() + n < NIL
        &&& self.raw_len() + raw < RAW_IN_FOLDED
        &&& self.folded_len() + folded < RAW_IN_FOLDED
        &&& v.load() + 2 * n <= u64::MAX
    }

    /// There is space for `n` more links whose names take so many bytes, and
    /// the counters have not run out.
    pub open spec fn room(&self, n: int, raw: int, folded: int) -> bool {
        let v = self.model();
        &&& self.space(n, raw, folded)
        &&& v.placeholders + n <= u64::MAX
        &&& v.stats.placeholders_created + n <= u64::MAX
        &&& v.stats.delete_of_unknown + n <= u64::MAX
        &&& v.stats.rename_old_seen + n <= u64::MAX
        &&& v.stats.stale_slots + n <= u64::MAX
    }

    /// It takes at most the room of `n` more links.
    pub open spec fn grown(&self, before: VolumeIndex, n: int, raw: int, folded: int) -> bool {
        let v = before.model();
        let w = self.model();
        &&& v.slots.len() <= w.slots.len() <= v.slots.len() + n
        &&& self.ids() <= before.ids() + n
        &&& self.raw_len() <= before.raw_len() + raw
        &&& self.folded_len() <= before.folded_len() + folded
        &&& w.load() <= v.load() + 2 * n
        &&& w.placeholders <= v.placeholders + n
        &&& w.stats.placeholders_created <= v.stats.placeholders_created + n
        &&& w.stats.delete_of_unknown <= v.stats.delete_of_unknown + n
        &&& w.stats.rename_old_seen <= v.stats.rename_old_seen + n
        &&& w.stats.stale_slots <= v.stats.stale_slots + n
    }

    /// Sets the next link of an entry that is in no chain.
    pub(super) fn set_link(&mut self, idx: EntryIdx, next: EntryIdx)
        requires
            old(self).sound(-1, -1, -1, -1),
            idx < old(self).entries.slots().len(),
            volume::unchained(old(self).chains@, idx),
        ensures
            final(self).sound(-1, -1, -1, -1),
            final(self).model() == old(self).model(),
            final(self).by_frn == old(self).by_frn,
            final(self).chains == old(self).chains,
            final(self).entries.slots().len() == old(self).entries.slots().len(),
            final(self).entries.slots() == old(self).entries.slots().update(
                idx as int,
                Slot { next_link: next, ..old(self).entries.slots()[idx as int] },
            ),
            final(self).ids() == old(self).ids(),
            final(self).raw_len() == old(self).raw_len(),
            final(self).folded_len() == old(self).folded_len(),
    {
        let ghost a = self.entries.slots();
        proof {
            self.entries.lemma_wf();
        }
        self.entries.set_next_link(idx, next);
        proof {
            let b = self.entries.slots();
            self.lemma_columns(a, b);
            assert(volume::chains_ok(b, self.lost_found, self.chains@)) by {
                assert forall|r: u64| #[trigger] self.chains@.dom().contains(r) implies volume::chain_ok(
                    b,
                    self.lost_found,
                    r,
                    self.chains@[r],
                ) by {
                    let c = self.chains@[r];
                    assert(volume::chain_ok(a, self.lost_found, r, c));
                    assert forall|k: int| #![trigger c[k]] 0 <= k < c.len() implies c[k] != idx by {
                        assert(c.contains(c[k]));
                    }
                }
            }
            assert(self.model().slots =~= old(self).model().slots);
        }
    }

    /// Sizes, times and the links of a file aside, the columns are the same.
    pub(super) proof fn lemma_columns(&self, a: Seq<Slot>, b: Seq<Slot>)
        requires
            a.len() == b.len() < NIL,
            forall|i: int|
                0 <= i < a.len() ==> #[trigger] b[i] == (Slot {
                    size: b[i].size,
                    mtime: b[i].mtime,
                    next_link: b[i].next_link,
                    ..a[i]
                }),
            graph::names_ok(a, self.names.model(), self.same@, -1, -1),
            graph::kids_ok(a, self.kids@, -1),
            volume::dirs_ok(
                a,
                self.names.model(),
                self.dirs.lists(),
                self.root,
                self.lost_found,
                -1,
            ),
            volume::parents_ok(a),
        ensures
            graph::names_ok(b, self.names.model(), self.same@, -1, -1),
            graph::kids_ok(b, self.kids@, -1),
            volume::dirs_ok(
                b,
                self.names.model(),
                self.dirs.lists(),
                self.root,
                self.lost_found,
                -1,
            ),
            volume::parents_ok(b),
            graph::exact(a, -1) == graph::exact(b, -1),
    {
        assert forall|i: int| #[trigger] graph::there(b, -1, i) <==> graph::there(a, -1, i) by {}
        graph::lemma_names_to(a, -1, b, -1, self.names.model(), self.same@, -1);
        assert forall|i: int| #[trigger] graph::kid(b, -1, i) <==> graph::kid(a, -1, i) by {}
        graph::lemma_kids_to(a, -1, b, -1, self.kids@);
        volume::lemma_dirs_to(
            a,
            self.names.model(),
            -1,
            b,
            self.names.model(),
            -1,
            self.dirs.lists(),
            self.root,
            self.lost_found,
        );
        assert forall|i: int| 0 <= i < a.len() implies graph::exact_node(a, i)
            == #[trigger] graph::exact_node(b, i) by {
            assert(b[i].parent == a[i].parent);
            let p = a[i].parent as int;
            if p < a.len() {
                assert(b[p].first_child == a[p].first_child);
            }
        }
        if graph::exact(a, -1) {
            assert forall|i: int| graph::kid(b, -1, i) implies #[trigger] graph::exact_node(
                b,
                i,
            ) by {
                assert(graph::kid(a, -1, i));
                assert(graph::exact_node(a, i));
            }
        }
        if graph::exact(b, -1) {
            assert forall|i: int| graph::kid(a, -1, i) implies #[trigger] graph::exact_node(
                a,
                i,
            ) by {
                assert(graph::kid(b, -1, i));
                assert(graph::exact_node(b, i));
            }
        }
    }

    /// A slot holds an entry exactly where its columns do.
    pub(super) proof fn lemma_live(&self, i: int)
        requires
            0 <= i < self.entries.slots().len(),
        ensures
            self.model().has(i) == self.entries.slots()[i].live(),
            self.model().slots.len() == self.entries.slots().len(),
            self.model().slots[i] == volume::ent_of(self.entries.slots()[i], self.names.model()),
    {
    }

    /// The entries of a chain leave it.
    pub(super) proof fn lemma_unchained(&self, r: u64)
        requires
            self.sound(-1, -1, -1, -1),
            self.chains@.dom().contains(r),
        ensures
            forall|k: int|
                #![trigger self.chains@[r][k]]
                0 <= k < self.chains@[r].len() ==> volume::unchained(
                    self.chains@.remove(r),
                    self.chains@[r][k],
                ),
    {
        let e = self.entries.slots();
        let c = self.chains@[r];
        assert(volume::chain_ok(e, self.lost_found, r, c));
        assert forall|k: int|
            #![trigger self.chains@[r][k]]
            0 <= k < self.chains@[r].len() implies volume::unchained(
            self.chains@.remove(r),
            self.chains@[r][k],
        ) by {
            assert forall|q: u64| #[trigger]
                self.chains@.remove(r).dom().contains(q) implies !self.chains@.remove(
                r,
            )[q].contains(c[k]) by {
                let d = self.chains@[q];
                assert(volume::chain_ok(e, self.lost_found, q, d));
                if d.contains(c[k]) {
                    let j = choose|j: int| 0 <= j < d.len() && d[j] == c[k];
                    assert(types::record_of(e[d[j] as int].frn.0) == q);
                }
            }
        }
    }

    /// Ends the entries that a record number leads to.
    #[verifier::rlimit(40)]
    pub(super) fn drop_record(&mut self, record: u64, head: EntryIdx)
        requires
            old(self).wf(),
            old(self).by_frn.map().dom().contains(record),
            head == old(self).by_frn.map()[record],
            old(self).model().load() <= u64::MAX,
        ensures
            final(self).wf(),
            final(self).model() == old(self).model().dropped(record),
            final(self).ids() == old(self).ids(),
            final(self).raw_len() == old(self).raw_len(),
            final(self).folded_len() == old(self).folded_len(),
    {
        let ghost c = self.chains@[record];
        let ghost rest = self.chains@.remove(record);
        let ghost v1 = Volume { chains: rest, ..self.model() };
        let ghost mut k: int = 0;
        proof {
            self.lemma_unchained(record);
            assert(volume::chain_ok(self.entries.slots(), self.lost_found, record, c));
            self.chains@ = rest;
            assert(v1.all_ended(c.take(0)) =~= v1);
            assert(self.model() =~= v1);
        }
        let mut cur = head;
        while cur != NIL
            invariant
                0 <= k <= c.len(),
                cur == (if k < c.len() {
                    c[k]
                } else {
                    NIL
                }),
                self.sound(-1, -1, -1, -1),
                self.chains@ == rest,
                self.by_frn == old(self).by_frn,
                self.model() == v1.all_ended(c.take(k)),
                self.lost_found == old(self).lost_found,
                c.no_duplicates(),
                v1.load() <= u64::MAX,
                v1.slots.len() == self.entries.slots().len(),
                forall|j: int| 0 <= j < c.len() ==> #[trigger] c[j] < v1.slots.len(),
                forall|j: int|
                    #![trigger c[j]]
                    k <= j < c.len() ==> {
                        &&& c[j] < self.entries.slots().len()
                        &&& c[j] != self.lost_found
                        &&& self.entries.slots()[c[j] as int].live()
                        &&& volume::unchained(rest, c[j])
                        &&& self.entries.slots()[c[j] as int].next_link == (if j + 1 < c.len() {
                            c[j + 1]
                        } else {
                            NIL
                        })
                    },
                self.ids() == old(self).ids(),
                self.raw_len() == old(self).raw_len(),
                self.folded_len() == old(self).folded_len(),
            decreases c.len() - k,
        {
            let ghost e = self.entries.slots();
            let ghost v = self.model();
            proof {
                assert(c[k] == cur);
                assert forall|j: int| 0 <= j < c.take(k).len() implies #[trigger] c.take(k)[j]
                    < v1.slots.len() by {
                    assert(c[j] < v1.slots.len());
                }
                self.entries.lemma_wf();
                lemma_ended_rechained(v1, rest, c.take(k));
                store::lemma_free_room(e, self.entries.free(), cur as int);
                assert(v.load() == v1.load());
                assert(self.dirty + e.len() - self.entries.free().len() == v.load());
            }
            let next = self.entries.next_link(cur);
            if self.entries.flags(cur).contains(EntryFlags::PLACEHOLDER) {
                self.live_placeholders = self.live_placeholders.saturating_sub(1);
            }
            let ghost mid = *self;
            proof {
                assert(mid.model().slots =~= v.slots);
                assert(mid.sound(-1, -1, -1, -1));
            }
            self.kill(cur);
            self.dirty = self.dirty + 1;
            proof {
                assert(v.ent(cur).placeholder == e[cur as int].flags.has(EntryFlags::PLACEHOLDER));
                assert(self.model() =~= v.ended(cur));
                assert(self.entries.slots().len() == self.model().slots.len());
                assert(c.take(k + 1).drop_last() =~= c.take(k));
                assert(c.take(k + 1).last() == cur);
                assert forall|j: int|
                    #![trigger c[j]]
                    k + 1 <= j < c.len() implies self.entries.slots()[c[j] as int].live()
                    && self.entries.slots()[c[j] as int].next_link == e[c[j] as int].next_link by {
                    assert(c[j] != c[k]);
                    assert(e[c[j] as int].live());
                    mid.lemma_live(c[j] as int);
                    self.lemma_live(c[j] as int);
                    assert(self.model().slots[c[j] as int] == mid.model().slots[c[j] as int]);
                }
                k = k + 1;
            }
            cur = next;
        }
        self.by_frn.remove(record);
        proof {
            assert(c.take(c.len() as int) =~= c);
            lemma_ended_rechained(old(self).model(), rest, c);
            assert(self.model() =~= old(self).model().dropped(record));
            assert(self.by_frn.map().dom() =~= rest.dom());
            assert forall|j: int| 0 <= j < c.len() implies old(self).model().has(
                #[trigger] c[j] as int,
            ) by {
                old(self).lemma_live(c[j] as int);
            }
            standins::lemma_all_ended(old(self).model(), c);
        }
    }
    /// Slots are not all free: one holds the lost and found directory.
    pub(super) proof fn lemma_dirty(&self)
        requires
            self.sound(-1, -1, -1, -1),
        ensures
            self.model().free.len() < self.model().slots.len(),
            self.dirty < self.model().load(),
            self.model().slots.len() < NIL,
            self.model().slots.len() == self.entries.slots().len(),
            self.model().has(self.lost_found as int),
            self.model().next_slot() <= self.model().slots.len(),
            self.model().free.len() > 0 ==> self.model().next_slot() < self.model().slots.len(),
            !self.model().has(self.model().next_slot() as int),
    {
        self.entries.lemma_wf();
        if self.entries.free().len() > 0 {
            let k = self.entries.free().len() - 1;
            assert(self.entries.free()[k] < self.entries.slots().len());
            self.lemma_live(self.entries.free()[k] as int);
        }
        store::lemma_free_room(
            self.entries.slots(),
            self.entries.free(),
            self.lost_found as int,
        );
        self.lemma_live(self.lost_found as int);
    }

    /// A record number leads to a live entry.
    pub(super) proof fn lemma_head(&self, r: u64)
        requires
            self.wf(),
        ensures
            self.by_frn.map().dom().contains(r) == self.model().chains.dom().contains(r),
            self.by_frn.map().dom().contains(r) ==> {
                let h = self.by_frn.map()[r];
                &&& h == self.model().chains[r][0]
                &&& h != NIL
                &&& h < self.entries.slots().len()
                &&& h != self.lost_found
                &&& self.model().has(h as int)
                &&& self.entries.slots()[h as int].live()
                &&& self.entries.slots()[h as int].frn == self.model().ent(h).frn
                &&& volume::chain_ok(
                    self.entries.slots(),
                    self.lost_found,
                    r,
                    self.model().chains[r],
                )
                &&& self.entries.slots()[h as int].next_link == (if self.model().chains[r].len()
                    > 1 {
                    self.model().chains[r][1]
                } else {
                    NIL
                })
                &&& self.entries.slots()[h as int].next_link == NIL <==> self.model().chains[r].len()
                    == 1
            },
    {
        if self.by_frn.map().dom().contains(r) {
            let c = self.chains@[r];
            assert(self.chains@.dom().contains(r));
            assert(volume::chain_ok(self.entries.slots(), self.lost_found, r, c));
            let h = c[0];
            self.lemma_live(h as int);
            if c.len() > 1 {
                assert(c[1] < self.entries.slots().len());
            }
        }
    }

    /// Makes a file of one link. Its record number leads to nothing before.
    pub(super) fn file_new(
        &mut self,
        frn: Frn,
        parent: EntryIdx,
        name: &[u8],
        lossy: bool,
        is_dir: bool,
        placeholder: bool,
    ) -> (idx: EntryIdx)
        requires
            old(self).wf(),
            old(self).space(1, raw_cost(name@), folded_cost(name@)),
            short_name(name@),
            parent == NIL || parent < old(self).model().slots.len(),
            !old(self).model().chains.dom().contains(types::record_of(frn.0)),
            placeholder ==> old(self).model().surplus() > 0,
        ensures
            final(self).wf(),
            final(self).model() == old(self).model().filed(
                model::new_ent(frn, parent, name@, lossy, is_dir, placeholder),
            ),
            idx == old(self).model().next_slot(),
            final(self).model().has(idx as int),
            final(self).grown(*old(self), 1, raw_cost(name@), folded_cost(name@)),
    {
        proof {
            self.lemma_dirty();
        }
        let idx = self.create(frn, parent, name, lossy, is_dir, placeholder);
        let record = frn.record_number();
        self.by_frn.set(record, idx);
        self.dirty = self.dirty + 1;
        proof {
            let x = model::new_ent(frn, parent, name@, lossy, is_dir, placeholder);
            let e = self.entries.slots();
            let before = self.chains@;
            self.lemma_live(idx as int);
            assert(self.model().slots == old(self).model().created(x).slots);
            assert(self.model().slots[idx as int] == Some(x));
            let c = seq![idx];
            self.chains@ = before.insert(record, c);
            assert(volume::chain_ok(e, self.lost_found, record, c)) by {
                assert(self.model().has(old(self).lost_found as int));
                old(self).lemma_live(old(self).lost_found as int);
                old(self).entries.lemma_wf();
            }
            assert forall|r: u64| #[trigger] self.chains@.dom().contains(r) implies volume::chain_ok(
                e,
                self.lost_found,
                r,
                self.chains@[r],
            ) by {
                if r != record {
                    assert(before.dom().contains(r));
                }
            }
            assert(self.by_frn.map().dom() =~= self.chains@.dom());
            assert(self.model() =~= old(self).model().filed(x));
            standins::lemma_created(old(self).model(), x);
        }
        idx
    }

    /// Ends the entries of a file that is gone: its record number was given to
    /// another file.
    pub(super) fn reclaim_stale_slot(&mut self, record: u64, head: EntryIdx)
        requires
            old(self).wf(),
            old(self).by_frn.map().dom().contains(record),
            head == old(self).by_frn.map()[record],
            old(self).model().load() <= u64::MAX,
            old(self).model().stats.stale_slots < u64::MAX,
        ensures
            final(self).wf(),
            final(self).model() == old(self).model().reclaimed(record),
            final(self).grown(*old(self), 1, 0, 0),
            final(self).model().load() == old(self).model().load(),
            final(self).model().slots.len() == old(self).model().slots.len(),
            final(self).ids() == old(self).ids(),
            final(self).model().placeholders <= old(self).model().placeholders,
            final(self).model().stats.placeholders_created
                == old(self).model().stats.placeholders_created,
    {
        proof {
            self.lemma_head(record);
            let c = self.model().chains[record];
            assert forall|k: int| 0 <= k < c.len() implies #[trigger] c[k]
                < self.model().slots.len() by {}
            lemma_ended_rechained(self.model(), self.chains@, c);
        }
        self.drop_record(record, head);
        self.stats.stale_slots = self.stats.stale_slots + 1;
        proof {
            assert(self.model() =~= old(self).model().reclaimed(record));
        }
    }

    /// The entry of a parent; one that is not known gets a placeholder in the
    /// lost and found directory.
    #[verifier::rlimit(30)]
    pub(super) fn resolve_or_placeholder_parent(&mut self, parent_frn: Frn) -> (idx: EntryIdx)
        requires
            old(self).wf(),
            old(self).room(1, PLACEHOLDER_COST as int, PLACEHOLDER_COST as int),
        ensures
            final(self).wf(),
            final(self).model() == old(self).model().resolved(parent_frn).0,
            idx == old(self).model().resolved(parent_frn).1,
            final(self).model().has(idx as int),
            final(self).model().head(parent_frn) == Some(idx),
            forall|f: Frn| #[trigger]
                old(self).model().head(f) is Some && types::record_of(f.0) != types::record_of(
                    parent_frn.0,
                ) ==> final(self).model().head(f) == old(self).model().head(f),
            final(self).grown(
                *old(self),
                1,
                PLACEHOLDER_COST as int,
                PLACEHOLDER_COST as int,
            ),
    {
        let record = parent_frn.record_number();
        proof {
            self.lemma_dirty();
            self.lemma_head(record);
            lemma_placeholder_name();
        }
        if let Some(idx) = self.by_frn.get(record) {
            if self.entries.frn(idx) == parent_frn {
                return idx;
            }
            self.reclaim_stale_slot(record, idx);
        }
        let ghost mid = *self;
        let lost_found = self.lost_found;
        let name: [u8; 12] = [
            0x24u8,
            0x50u8,
            0x6cu8,
            0x61u8,
            0x63u8,
            0x65u8,
            0x68u8,
            0x6fu8,
            0x6cu8,
            0x64u8,
            0x65u8,
            0x72u8,
        ];
        proof {
            self.lemma_dirty();
            assert(name@ =~= model::placeholder_name());
            assert(self.model() == old(self).model().reclaimed(record));
        }
        self.stats.placeholders_created = self.stats.placeholders_created + 1;
        self.live_placeholders = self.live_placeholders + 1;
        let idx = self.file_new(parent_frn, lost_found, name.as_slice(), false, true, true);
        proof {
            assert(self.model() =~= mid.model().placeheld(parent_frn));
            assert(self.model().ent(idx).frn == parent_frn);
            assert forall|f: Frn| #[trigger]
                old(self).model().head(f) is Some && types::record_of(f.0)
                    != record implies self.model().head(f) == old(self).model().head(f) by {
                let r = types::record_of(f.0);
                old(self).lemma_head(r);
                let h = old(self).model().chains[r][0];
                if old(self).model().chains.dom().contains(record) {
                    let c = old(self).model().chains[record];
                    old(self).lemma_head(record);
                    lemma_ended_rechained(old(self).model(), old(self).chains@, c);
                    assert(!c.contains(h)) by {
                        if c.contains(h) {
                            let k = choose|k: int| 0 <= k < c.len() && c[k] == h;
                            assert(types::record_of(old(self).entries.slots()[c[k] as int].frn.0)
                                == record);
                        }
                    }
                    assert(mid.model().slots[h as int] == old(self).model().slots[h as int]);
                }
                assert(mid.model().has(h as int));
                mid.lemma_dirty();
                assert(self.model().slots[h as int] == mid.model().slots[h as int]);
            }
        }
        idx
    }

    /// A file has this name in this directory. The result says that the file
    /// has several links, so that they must be looked up.
    #[verifier::rlimit(40)]
    pub(super) fn upsert_link(
        &mut self,
        frn: Frn,
        parent_frn: Frn,
        name: &[u8],
        lossy: bool,
        is_dir: bool,
    ) -> (needs_reconcile: bool)
        requires
            old(self).wf(),
            old(self).room(
                2,
                PLACEHOLDER_COST + raw_cost(name@),
                PLACEHOLDER_COST + folded_cost(name@),
            ),
            short_name(name@),
        ensures
            final(self).wf(),
            final(self).model() == old(self).model().upserted(
                frn,
                parent_frn,
                name@,
                lossy,
                is_dir,
            ).0,
            needs_reconcile == old(self).model().upserted(
                frn,
                parent_frn,
                name@,
                lossy,
                is_dir,
            ).1,
            final(self).grown(
                *old(self),
                2,
                PLACEHOLDER_COST + raw_cost(name@),
                PLACEHOLDER_COST + folded_cost(name@),
            ),
    {
        let record = frn.record_number();
        let parent = self.resolve_or_placeholder_parent(parent_frn);
        let ghost v = *self;
        proof {
            self.lemma_dirty();
            self.lemma_head(record);
        }
        if let Some(head) = self.by_frn.get(record) {
            if self.entries.frn(head) == frn {
                if self.entries.next_link(head) == NIL {
                    self.rewrite_entry(head, parent, name, lossy, is_dir);
                    proof {
                        standins::lemma_rewritten(v.model(), head, parent, name@, lossy, is_dir);
                    }
                    return false;
                }
                return true;
            }
            self.reclaim_stale_slot(record, head);
            proof {
                let c = v.model().chains[record];
                lemma_ended_rechained(v.model(), v.chains@, c);
                if types::record_of(parent_frn.0) != record {
                    v.lemma_head(types::record_of(parent_frn.0));
                    let p = types::record_of(parent_frn.0);
                    assert(!c.contains(parent)) by {
                        if c.contains(parent) {
                            let k = choose|k: int| 0 <= k < c.len() && c[k] == parent;
                            assert(types::record_of(v.entries.slots()[c[k] as int].frn.0)
                                == record);
                        }
                    }
                    assert(self.model().slots[parent as int] == v.model().slots[parent as int]);
                }
            }
        }
        proof {
            self.lemma_dirty();
            assert(self.model() == v.model().reclaimed(record));
        }
        let idx = self.file_new(frn, parent, name, lossy, is_dir, false);
        false
    }

    /// A file is gone. The result says whether it was there.
    pub(super) fn delete_frn(&mut self, frn: Frn) -> (found: bool)
        requires
            old(self).wf(),
            old(self).model().load() <= u64::MAX,
        ensures
            final(self).wf(),
            final(self).model() == old(self).model().deleted(frn).0,
            found == old(self).model().deleted(frn).1,
            final(self).grown(*old(self), 0, 0, 0),
    {
        let record = frn.record_number();
        proof {
            self.lemma_head(record);
        }
        match self.by_frn.get(record) {
            None => false,
            Some(head) => {
                if self.entries.frn(head) != frn {
                    return false;
                }
                proof {
                    let c = self.model().chains[record];
                    assert forall|k: int| 0 <= k < c.len() implies #[trigger] c[k]
                        < self.model().slots.len() by {}
                    lemma_ended_rechained(self.model(), self.chains@, c);
                }
                self.drop_record(record, head);
                true
            },
        }
    }
}

} // verus!
