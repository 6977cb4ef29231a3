//! The links of one file.

use super::ops;
use super::VolumeIndex;
use crate::buffers;
use crate::buffers::IndexBuf;
use crate::index::graph;
use crate::index::model;
use crate::index::model::{Relink, Target, Volume};
use crate::index::standins;
use crate::index::store::{EntryFlags, Slot};
use crate::index::volume;
use crate::le;
use crate::types;
use crate::types::{EntryIdx, Frn, NIL};
use vstd::prelude::*;

verus! {

/// A name in WTF-8, and whether it holds an unpaired surrogate.
#[derive(Clone, Debug, PartialEq, Eq)]
pub struct WtfName {
    pub bytes: Vec<u8>,
    pub lossy: bool,
}

impl WtfName {
    pub fn new(bytes: Vec<u8>, lossy: bool) -> (n: WtfName)
        ensures
            n.bytes == bytes,
            n.lossy == lossy,
    {
        WtfName { bytes, lossy }
    }
}

/// A link that a file should have.
#[derive(Clone, Debug, PartialEq, Eq)]
pub struct LinkTarget {
    pub parent: EntryIdx,
    pub name: WtfName,
}

impl LinkTarget {
    pub open spec fn model(&self) -> Target {
        Target { parent: self.parent, name: self.name.bytes@, lossy: self.name.lossy }
    }
}

pub open spec fn targets_of(links: Seq<LinkTarget>) -> Seq<Target> {
    links.map_values(|l: LinkTarget| l.model())
}

/// What the names of the targets take as they are written.
pub open spec fn raw_sum(targets: Seq<Target>) -> int
    decreases targets.len(),
{
    if targets.len() == 0 {
        0
    } else {
        raw_sum(targets.drop_last()) + ops::raw_cost(targets.last().name)
    }
}

/// What the names of the targets take folded.
pub open spec fn folded_sum(targets: Seq<Target>) -> int
    decreases targets.len(),
{
    if targets.len() == 0 {
        0
    } else {
        folded_sum(targets.drop_last()) + ops::folded_cost(targets.last().name)
    }
}

pub proof fn lemma_sums(targets: Seq<Target>, i: int)
    requires
        0 <= i <= targets.len(),
    ensures
        0 <= raw_sum(targets.take(i)) <= raw_sum(targets),
        0 <= folded_sum(targets.take(i)) <= folded_sum(targets),
        i < targets.len() ==> raw_sum(targets.take(i + 1)) == raw_sum(targets.take(i))
            + ops::raw_cost(targets[i].name) && folded_sum(targets.take(i + 1)) == folded_sum(
            targets.take(i),
        ) + ops::folded_cost(targets[i].name),
    decreases targets.len(),
{
    if i < targets.len() {
        assert(targets.take(i + 1).drop_last() =~= targets.take(i));
        lemma_sums(targets.drop_last(), i);
        assert(targets.drop_last().take(i) =~= targets.take(i));
    } else {
        assert(targets.take(i) =~= targets);
        if targets.len() > 0 {
            lemma_sums(targets.drop_last(), targets.len() - 1);
            assert(targets.drop_last().take(targets.len() - 1) =~= targets.drop_last());
        }
    }
}

/// A file can be given these links.
pub open spec fn targets_ok(targets: Seq<Target>, slots: int) -> bool {
    forall|k: int|
        0 <= k < targets.len() ==> ops::short_name((#[trigger] targets[k]).name) && (
        targets[k].parent == NIL || targets[k].parent < slots)
}

/// An entry of the file with record number `r`, in no chain.
spec fn loose(v: Volume, r: u64, i: EntryIdx) -> bool {
    &&& v.has(i as int)
    &&& i != v.lost_found
    &&& types::record_of(v.ent(i).frn.0) == r
    &&& volume::unchained(v.chains, i)
}

spec fn rechained(v: Volume, chains: Map<u64, Seq<EntryIdx>>) -> Volume {
    Volume { chains, ..v }
}

spec fn rechained_links(s: Relink, chains: Map<u64, Seq<EntryIdx>>) -> Relink {
    Relink { volume: rechained(s.volume, chains), ..s }
}

proof fn lemma_spare_rechained(
    v: Volume,
    chains: Map<u64, Seq<EntryIdx>>,
    current: Seq<EntryIdx>,
    used: Seq<bool>,
    t: Target,
    k: int,
)
    ensures
        model::spare_link(rechained(v, chains), current, used, t, k) == model::spare_link(
            v,
            current,
            used,
            t,
            k,
        ),
    decreases current.len() - k,
{
    if k < current.len() {
        lemma_spare_rechained(v, chains, current, used, t, k + 1);
    }
}

/// Which chains there are does not matter to the choice of links.
proof fn lemma_relink_rechained(
    s: Relink,
    chains: Map<u64, Seq<EntryIdx>>,
    current: Seq<EntryIdx>,
    frn: Frn,
    dir: bool,
    targets: Seq<Target>,
)
    ensures
        model::relink_all(rechained_links(s, chains), current, frn, dir, targets)
            == rechained_links(
            model::relink_all(s, current, frn, dir, targets),
            chains,
        ),
        model::relink_all(s, current, frn, dir, targets).volume.chains == s.volume.chains,
        model::relink_all(s, current, frn, dir, targets).volume.stats == s.volume.stats,
    decreases targets.len(),
{
    if targets.len() > 0 {
        lemma_relink_rechained(s, chains, current, frn, dir, targets.drop_last());
        let p = model::relink_all(s, current, frn, dir, targets.drop_last());
        lemma_spare_rechained(p.volume, chains, current, p.used, targets.last(), 0);
    }
}

proof fn lemma_unused_rechained(
    v: Volume,
    chains: Map<u64, Seq<EntryIdx>>,
    current: Seq<EntryIdx>,
    used: Seq<bool>,
    k: int,
)
    ensures
        model::unused_ended(rechained(v, chains), current, used, k) == rechained(
            model::unused_ended(v, current, used, k),
            chains,
        ),
        model::unused_ended(v, current, used, k).chains == v.chains,
        model::unused_ended(v, current, used, k).stats == v.stats,
    decreases k,
{
    if k > 0 {
        lemma_unused_rechained(v, chains, current, used, k - 1);
    }
}

impl VolumeIndex {
    /// The entries of a file, in the order of its chain.
    fn chain_of(&self, frn: Frn) -> (c: IndexBuf)
        requires
            self.wf(),
        ensures
            buffers::indices_of(c) == self.model().links(frn),
    {
        let mut c = buffers::new_indices();
        let record = frn.record_number();
        proof {
            self.lemma_head(record);
        }
        if let Some(head) = self.by_frn.get(record) {
            if self.entries.frn(head) == frn {
                let ghost all = self.model().chains[record];
                let mut cur = head;
                assert(buffers::indices_of(c) =~= all.take(0));
                while cur != NIL
                    invariant
                        self.wf(),
                        self.model().chains.dom().contains(record),
                        all == self.model().chains[record],
                        volume::chain_ok(self.entries.slots(), self.lost_found, record, all),
                        self.entries.wf(),
                        self.entries.slots().len() < NIL,
                        buffers::indices_of(c).len() <= all.len(),
                        buffers::indices_of(c) == all.take(buffers::indices_of(c).len() as int),
                        cur == (if buffers::indices_of(c).len() < all.len() {
                            all[buffers::indices_of(c).len() as int]
                        } else {
                            NIL
                        }),
                    decreases all.len() - buffers::indices_of(c).len(),
                {
                    assert(all[buffers::indices_of(c).len() as int] == cur);
                    let next = self.entries.next_link(cur);
                    proof {
                        if buffers::indices_of(c).len() + 1 < all.len() {
                            assert(all[buffers::indices_of(c).len() as int + 1] < self.entries.slots().len());
                        }
                    }
                    buffers::push_index(&mut c, cur);
                    cur = next;
                    assert(buffers::indices_of(c) =~= all.take(buffers::indices_of(c).len() as int));
                }
                proof {
                    if buffers::indices_of(c).len() < all.len() {
                        assert(all[buffers::indices_of(c).len() as int] < self.entries.slots().len());
                    }
                    assert(buffers::indices_of(c) =~= all);
                }
            }
        }
        assert(buffers::indices_of(c) =~= self.model().links(frn));
        c
    }

    /// The entry has the parent and the name.
    fn entry_is(&self, idx: EntryIdx, parent: EntryIdx, name: &[u8]) -> (r: bool)
        requires
            self.sound(-1, -1, -1, -1),
            self.model().has(idx as int),
        ensures
            r == self.model().is_link(idx, parent, name@),
    {
        proof {
            self.lemma_live(idx as int);
            assert(graph::there(self.entries.slots(), -1, idx as int));
            graph::lemma_name_used(
                self.entries.slots(),
                self.names.model(),
                self.same@,
                -1,
                -1,
            );
        }
        self.entries.parent(idx) == parent && !self.entries.flags(idx).contains(
            EntryFlags::CHAIN_DETACHED,
        ) && le::same_bytes(self.names.raw_bytes(self.entries.name_id(idx)), name)
    }

    /// The file has a link with this parent and name.
    pub(super) fn chain_has_link(&self, frn: Frn, parent: EntryIdx, name: &[u8]) -> (r: bool)
        requires
            self.wf(),
        ensures
            r == self.model().has_link(self.model().links(frn), parent, name@),
    {
        let record = frn.record_number();
        proof {
            self.lemma_head(record);
        }
        let head = match self.head_of(frn) {
            None => {
                return false;
            },
            Some(head) => head,
        };
        let ghost all = self.model().chains[record];
        let ghost mut k: int = 0;
        let mut cur = head;
        while cur != NIL
            invariant
                self.wf(),
                self.sound(-1, -1, -1, -1),
                self.entries.wf(),
                self.entries.slots().len() < NIL,
                all == self.model().links(frn),
                volume::chain_ok(self.entries.slots(), self.lost_found, record, all),
                0 <= k <= all.len(),
                cur == (if k < all.len() {
                    all[k]
                } else {
                    NIL
                }),
                forall|j: int|
                    0 <= j < k ==> !self.model().is_link(#[trigger] all[j], parent, name@),
            decreases all.len() - k,
        {
            proof {
                assert(all[k] == cur);
                self.lemma_live(cur as int);
            }
            if self.entry_is(cur, parent, name) {
                return true;
            }
            let next = self.entries.next_link(cur);
            proof {
                if k + 1 < all.len() {
                    assert(all[k + 1] < self.entries.slots().len());
                }
                k = k + 1;
            }
            cur = next;
        }
        proof {
            if k < all.len() {
                assert(all[k] < self.entries.slots().len());
            }
        }
        false
    }

    /// The first entry of a file.
    pub fn head_of(&self, frn: Frn) -> (r: Option<EntryIdx>)
        requires
            self.wf(),
        ensures
            r == self.model().head(frn),
    {
        let record = frn.record_number();
        proof {
            self.lemma_head(record);
        }
        match self.by_frn.get(record) {
            None => None,
            Some(head) => {
                if self.entries.frn(head) == frn {
                    Some(head)
                } else {
                    None
                }
            },
        }
    }

    /// Gives a file one more link, behind the others.
    #[verifier::rlimit(40)]
    pub(super) fn add_link(&mut self, frn: Frn, parent: EntryIdx, name: &[u8], lossy: bool)
        requires
            old(self).wf(),
            old(self).room(1, ops::raw_cost(name@), ops::folded_cost(name@)),
            ops::short_name(name@),
            parent == NIL || parent < old(self).model().slots.len(),
        ensures
            final(self).wf(),
            final(self).model() == old(self).model().linked(frn, parent, name@, lossy),
            final(self).grown(*old(self), 1, ops::raw_cost(name@), ops::folded_cost(name@)),
    {
        let record = frn.record_number();
        proof {
            self.lemma_dirty();
            self.lemma_head(record);
        }
        if let Some(head) = self.by_frn.get(record) {
            if self.entries.frn(head) != frn {
                self.reclaim_stale_slot(record, head);
            }
        }
        let ghost start = *self;
        proof {
            assert(start.model() == old(self).model().claimed(frn));
            self.lemma_dirty();
            self.lemma_head(record);
        }
        if self.by_frn.get(record).is_none() {
            let idx = self.file_new(frn, parent, name, lossy, false, false);
            assert(self.model() =~= old(self).model().linked(frn, parent, name@, lossy));
            return ;
        }
        let ghost x = model::new_ent(frn, parent, name@, lossy, false, false);
        let ghost all = self.model().chains[record];
        let idx = self.create(frn, parent, name, lossy, false, false);
        let ghost mid = *self;
        let ghost e = self.entries.slots();
        proof {
            self.lemma_dirty();
            self.lemma_live(idx as int);
            assert(self.model().ent(idx) == x);
            assert(volume::chain_ok(e, self.lost_found, record, all));
        }
        let head = match self.by_frn.get(record) {
            Some(head) => head,
            None => idx,
        };
        let ghost mut k: int = 0;
        let mut tail = head;
        while self.entries.next_link(tail) != NIL
            invariant
                *self == mid,
                e == self.entries.slots(),
                self.entries.wf(),
                self.entries.slots().len() < NIL,
                volume::chain_ok(e, self.lost_found, record, all),
                0 <= k < all.len(),
                tail == all[k],
                tail < e.len(),
            decreases all.len() - k,
        {
            proof {
                assert(all[k] == tail);
                assert(all[k + 1] < e.len());
                k = k + 1;
            }
            tail = self.entries.next_link(tail);
        }
        proof {
            assert(all[k] == tail);
            if k + 1 < all.len() {
                assert(all[k + 1] < e.len());
            }
            assert(tail == all.last());
            self.lemma_unchained(record);
            assert(all[all.len() - 1] == tail);
            self.chains@ = self.chains@.remove(record);
        }
        self.set_link(tail, idx);
        self.dirty = self.dirty + 1;
        proof {
            let f = self.entries.slots();
            let rest = self.chains@;
            let c = all.push(idx);
            self.chains@ = rest.insert(record, c);
            assert(!all.contains(idx)) by {
                if all.contains(idx) {
                    let j = choose|j: int| 0 <= j < all.len() && all[j] == idx;
                    assert(volume::chain_ok(
                        start.entries.slots(),
                        start.lost_found,
                        record,
                        all,
                    ));
                    start.lemma_live(all[j] as int);
                }
            }
            assert(volume::chain_ok(f, self.lost_found, record, c)) by {
                assert(c.no_duplicates()) by {
                    assert forall|a: int, b: int|
                        0 <= a < c.len() && 0 <= b < c.len() && a != b implies c[a] != c[b] by {
                        if a < all.len() {
                            assert(all.contains(all[a]));
                        }
                        if b < all.len() {
                            assert(all.contains(all[b]));
                        }
                    }
                }
                assert forall|j: int| #![trigger c[j]] 0 <= j < c.len() implies {
                    &&& c[j] < f.len()
                    &&& c[j] != self.lost_found
                    &&& f[c[j] as int].live()
                    &&& types::record_of(f[c[j] as int].frn.0) == record
                    &&& f[c[j] as int].next_link == (if j + 1 < c.len() {
                        c[j + 1]
                    } else {
                        NIL
                    })
                } by {
                    if j < all.len() {
                        assert(all[j] == c[j]);
                        assert(f[c[j] as int] == (Slot {
                            next_link: f[c[j] as int].next_link,
                            ..e[c[j] as int]
                        }));
                        if j == all.len() - 1 {
                            assert(c[j + 1] == idx);
                        } else {
                            assert(all[j] != tail) by {
                                assert(all[j] != all[all.len() - 1]);
                            }
                            assert(c[j + 1] == all[j + 1]);
                        }
                    } else {
                        assert(c[j] == idx);
                        assert(f[idx as int] == e[idx as int]);
                        assert(idx != start.lost_found) by {
                            start.lemma_dirty();
                        }
                    }
                }
            }
            assert forall|r: u64| #[trigger] self.chains@.dom().contains(r) implies volume::chain_ok(
                f,
                self.lost_found,
                r,
                self.chains@[r],
            ) by {
                if r != record {
                    assert(rest.dom().contains(r));
                }
            }
            assert(self.by_frn.map().dom() =~= self.chains@.dom());
            standins::lemma_created(start.model(), x);
            assert(self.chains@ =~= old(self).model().linked(frn, parent, name@, lossy).chains);
            assert(self.model() =~= old(self).model().linked(frn, parent, name@, lossy));
        }
    }
    /// The first link from the start that is not taken yet and is the target.
    fn spare_link_of(&self, current: &[EntryIdx], used: &Vec<bool>, target: &LinkTarget) -> (r:
        Option<usize>)
        requires
            self.sound(-1, -1, -1, -1),
            used@.len() == current@.len(),
            forall|k: int| 0 <= k < current@.len() ==> self.model().has(#[trigger] current@[k] as int),
        ensures
            ({
                let pos = model::spare_link(
                    self.model(),
                    current@,
                    used@,
                    target.model(),
                    0,
                );
                match r {
                    Some(k) => k == pos && k < current@.len() && !used@[k as int],
                    None => pos < 0,
                }
            }),
    {
        let mut k: usize = 0;
        while k < current.len()
            invariant
                k <= current@.len(),
                self.sound(-1, -1, -1, -1),
                used@.len() == current@.len(),
                forall|k: int|
                    0 <= k < current@.len() ==> self.model().has(#[trigger] current@[k] as int),
                model::spare_link(self.model(), current@, used@, target.model(), 0)
                    == model::spare_link(
                    self.model(),
                    current@,
                    used@,
                    target.model(),
                    k as int,
                ),
            decreases current@.len() - k,
        {
            assert(self.model().has(current@[k as int] as int));
            if !used[k] && self.entry_is(current[k], target.parent, target.name.bytes.as_slice()) {
                return Some(k);
            }
            k = k + 1;
        }
        None
    }

    /// Gives each target the link that it has, or a new one.
    #[verifier::rlimit(60)]
    fn relink_targets(
        &mut self,
        frn: Frn,
        is_dir: bool,
        desired: &[LinkTarget],
        current: &[EntryIdx],
    ) -> (r: (IndexBuf, Vec<bool>))
        requires
            old(self).sound(-1, -1, -1, -1),
            old(self).space(
                desired@.len() as int,
                raw_sum(targets_of(desired@)),
                folded_sum(targets_of(desired@)),
            ),
            targets_ok(targets_of(desired@), old(self).model().slots.len() as int),
            current@.no_duplicates(),
            forall|k: int|
                0 <= k < current@.len() ==> loose(
                    old(self).model(),
                    types::record_of(frn.0),
                    #[trigger] current@[k],
                ),
        ensures
            final(self).sound(-1, -1, -1, -1),
            final(self).by_frn == old(self).by_frn,
            ({
                let s = model::relink_all(
                    Relink {
                        volume: old(self).model(),
                        kept: Seq::empty(),
                        used: Seq::new(current@.len(), |i: int| false),
                    },
                    current@,
                    frn,
                    is_dir,
                    targets_of(desired@),
                );
                &&& final(self).model() == s.volume
                &&& buffers::indices_of(r.0) == s.kept
                &&& r.1@ == s.used
            }),
            buffers::indices_of(r.0).len() == desired@.len(),
            r.1@.len() == current@.len(),
            buffers::indices_of(r.0).no_duplicates(),
            forall|k: int|
                0 <= k < buffers::indices_of(r.0).len() ==> loose(
                    final(self).model(),
                    types::record_of(frn.0),
                    #[trigger] buffers::indices_of(r.0)[k],
                ),
            forall|k: int|
                0 <= k < current@.len() ==> loose(
                    final(self).model(),
                    types::record_of(frn.0),
                    #[trigger] current@[k],
                ),
            forall|k: int|
                0 <= k < current@.len() && !r.1@[k] ==> !buffers::indices_of(r.0).contains(#[trigger] current@[k]),
            final(self).model().surplus() == old(self).model().surplus(),
            final(self).grown(
                *old(self),
                desired@.len() as int,
                raw_sum(targets_of(desired@)),
                folded_sum(targets_of(desired@)),
            ),
    {
        let ghost record = types::record_of(frn.0);
        let ghost all = targets_of(desired@);
        let ghost v0 = self.model();
        let ghost s0 = Relink {
            volume: v0,
            kept: Seq::empty(),
            used: Seq::new(current@.len(), |i: int| false),
        };
        let mut kept = buffers::new_indices();
        let mut used: Vec<bool> = vec![false; current.len()];
        let mut i: usize = 0;
        proof {
            assert(used@ =~= s0.used);
            assert(buffers::indices_of(kept) =~= s0.kept);
            assert(all.take(0) =~= Seq::empty());
        }
        while i < desired.len()
            invariant
                i <= desired@.len(),
                all == targets_of(desired@),
                record == types::record_of(frn.0),
                v0 == old(self).model(),
                s0 == (Relink {
                    volume: v0,
                    kept: Seq::empty(),
                    used: Seq::new(current@.len(), |i: int| false),
                }),
                self.sound(-1, -1, -1, -1),
                self.by_frn == old(self).by_frn,
                self.model() == model::relink_all(
                    s0,
                    current@,
                    frn,
                    is_dir,
                    all.take(i as int),
                ).volume,
                buffers::indices_of(kept) == model::relink_all(s0, current@, frn, is_dir, all.take(i as int)).kept,
                used@ == model::relink_all(s0, current@, frn, is_dir, all.take(i as int)).used,
                buffers::indices_of(kept).len() == i,
                used@.len() == current@.len(),
                buffers::indices_of(kept).no_duplicates(),
                current@.no_duplicates(),
                forall|k: int|
                    0 <= k < buffers::indices_of(kept).len() ==> loose(self.model(), record, #[trigger] buffers::indices_of(kept)[k]),
                forall|k: int|
                    0 <= k < current@.len() ==> loose(
                        self.model(),
                        record,
                        #[trigger] current@[k],
                    ),
                forall|k: int|
                    0 <= k < current@.len() && !used@[k] ==> !buffers::indices_of(kept).contains(
                        #[trigger] current@[k],
                    ),
                old(self).space(desired@.len() as int, raw_sum(all), folded_sum(all)),
                targets_ok(all, old(self).model().slots.len() as int),
                self.grown(
                    *old(self),
                    i as int,
                    raw_sum(all.take(i as int)),
                    folded_sum(all.take(i as int)),
                ),
                forall|k: int| #[trigger] v0.has(k) ==> self.model().has(k),
                self.model().surplus() == v0.surplus(),
            decreases desired@.len() - i,
        {
            let ghost v = self.model();
            let ghost kept0 = buffers::indices_of(kept);
            let ghost used0 = used@;
            let ghost t = all[i as int];
            let target = &desired[i];
            proof {
                assert(t == target.model());
                assert(all.take(i + 1).drop_last() =~= all.take(i as int));
                assert(all.take(i + 1).last() == t);
                lemma_sums(all, i as int);
                lemma_sums(all, i + 1);
                self.lemma_dirty();
                assert forall|k: int| 0 <= k < current@.len() implies self.model().has(
                    #[trigger] current@[k] as int,
                ) by {
                    assert(loose(self.model(), record, current@[k]));
                }
            }
            if let Some(pos) = self.spare_link_of(current, &used, target) {
                used.set(pos, true);
                buffers::push_index(&mut kept, current[pos]);
                proof {
                    assert(loose(self.model(), record, current@[pos as int]));
                    assert(!kept0.contains(current@[pos as int]));
                    lemma_pushed(kept0, current@[pos as int]);
                    assert forall|k: int|
                        0 <= k < current@.len() && !used@[k] implies !buffers::indices_of(kept).contains(
                        #[trigger] current@[k],
                    ) by {
                        assert(k != pos);
                        assert(current@[k] != current@[pos as int]);
                        assert(!kept0.contains(current@[k]));
                        lemma_pushed_other(kept0, current@[pos as int], current@[k]);
                    }
                }
            } else {
                let idx = self.create(
                    frn,
                    target.parent,
                    target.name.bytes.as_slice(),
                    target.name.lossy,
                    is_dir,
                    false,
                );
                self.dirty = self.dirty + 1;
                buffers::push_index(&mut kept, idx);
                proof {
                    let x = model::new_ent(frn, t.parent, t.name, t.lossy, is_dir, false);
                    assert(self.model() =~= (Volume { dirty: v.dirty + 1, ..v.created(x) }));
                    standins::lemma_created(v, x);
                    assert forall|k: int| #[trigger] v.has(k) implies self.model().has(k)
                        && k != idx && self.model().slots[k] == v.slots[k] by {}
                    assert(self.model().slots[idx as int] == Some(x));
                    assert(loose(self.model(), record, idx));
                    assert(!kept0.contains(idx)) by {
                        if kept0.contains(idx) {
                            let j = choose|j: int| 0 <= j < kept0.len() && kept0[j] == idx;
                            assert(loose(v, record, kept0[j]));
                        }
                    }
                    lemma_pushed(kept0, idx);
                    assert forall|k: int| 0 <= k < buffers::indices_of(kept).len() implies loose(
                        self.model(),
                        record,
                        #[trigger] buffers::indices_of(kept)[k],
                    ) by {
                        if k < kept0.len() {
                            assert(buffers::indices_of(kept)[k] == kept0[k]);
                            assert(loose(v, record, kept0[k]));
                            assert(v.has(kept0[k] as int));
                        }
                    }
                    assert forall|k: int| 0 <= k < current@.len() implies loose(
                        self.model(),
                        record,
                        #[trigger] current@[k],
                    ) by {
                        assert(loose(v, record, current@[k]));
                        assert(v.has(current@[k] as int));
                    }
                    assert forall|k: int|
                        0 <= k < current@.len() && !used@[k] implies !buffers::indices_of(kept).contains(
                        #[trigger] current@[k],
                    ) by {
                        assert(loose(v, record, current@[k]));
                        assert(v.has(current@[k] as int));
                        lemma_pushed_other(kept0, idx, current@[k]);
                    }
                }
            }
            i = i + 1;
        }
        proof {
            assert(all.take(all.len() as int) =~= all);
        }
        (kept, used)
    }

    /// Gives a file exactly the links that it should have. Its record number
    /// leads to no other file.
    #[verifier::rlimit(60)]
    fn relink(&mut self, frn: Frn, is_dir: bool, desired: &[LinkTarget])
        requires
            old(self).wf(),
            old(self).model().head(frn) is Some || !old(self).model().chains.dom().contains(
                types::record_of(frn.0),
            ),
            desired@.len() > 0,
            old(self).space(
                desired@.len() as int,
                raw_sum(targets_of(desired@)),
                folded_sum(targets_of(desired@)),
            ),
            targets_ok(targets_of(desired@), old(self).model().slots.len() as int),
        ensures
            final(self).wf(),
            final(self).model() == old(self).model().relinked_to(frn, is_dir, targets_of(desired@)),
            final(self).model().stats == old(self).model().stats,
            final(self).grown(
                *old(self),
                desired@.len() as int,
                raw_sum(targets_of(desired@)),
                folded_sum(targets_of(desired@)),
            ),
    {
        let record = frn.record_number();
        let ghost all = targets_of(desired@);
        let ghost v0 = self.model();
        let links = self.chain_of(frn);
        let current = buffers::index_slice(&links);
        let ghost rest = self.chains@.remove(record);
        let ghost s0 = Relink {
            volume: v0,
            kept: Seq::empty(),
            used: Seq::new(current@.len(), |i: int| false),
        };
        proof {
            self.lemma_head(record);
            if self.chains@.dom().contains(record) {
                self.lemma_unchained(record);
            }
            assert(current@.no_duplicates());
            assert forall|k: int| 0 <= k < current@.len() implies loose(
                rechained(v0, rest),
                record,
                #[trigger] current@[k],
            ) by {
                assert(self.chains@[record][k] == current@[k]);
                self.lemma_live(current@[k] as int);
            }
            self.chains@ = rest;
            assert(self.model() == rechained(v0, rest));
            lemma_relink_rechained(s0, rest, current@, frn, is_dir, all);
        }
        let ghost before = *self;
        let (kept_links, used) = self.relink_targets(frn, is_dir, desired, current);
        let kept = buffers::index_slice(&kept_links);
        let ghost v1 = self.model();
        let mut i: usize = 0;
        while i < current.len()
            invariant
                i <= current@.len(),
                self.sound(-1, -1, -1, -1),
                self.by_frn == old(self).by_frn,
                self.model() == model::unused_ended(v1, current@, used@, i as int),
                self.model().chains == rest,
                used@.len() == current@.len(),
                current@.no_duplicates(),
                forall|k: int|
                    0 <= k < kept@.len() ==> loose(self.model(), record, #[trigger] kept@[k]),
                forall|k: int|
                    i <= k < current@.len() ==> loose(
                        self.model(),
                        record,
                        #[trigger] current@[k],
                    ),
                forall|k: int|
                    0 <= k < current@.len() && !used@[k] ==> !kept@.contains(
                        #[trigger] current@[k],
                    ),
                self.grown(before, desired@.len() as int, raw_sum(all), folded_sum(all)),
                self.model().surplus() >= 0,
                before.space(desired@.len() as int, raw_sum(all), folded_sum(all)),
            decreases current@.len() - i,
        {
            let ghost v = self.model();
            if !used[i] {
                let e = current[i];
                proof {
                    assert(loose(v, record, current@[i as int]));
                    self.lemma_dirty();
                    self.lemma_live(e as int);
                    assert(!kept@.contains(current@[i as int]));
                }
                self.kill(e);
                self.dirty = self.dirty + 1;
                proof {
                    assert(self.model() =~= (Volume { dirty: v.dirty + 1, ..v.killed(e) }));
                    standins::lemma_killed(v, e);
                    assert forall|k: int| 0 <= k < kept@.len() implies loose(
                        self.model(),
                        record,
                        #[trigger] kept@[k],
                    ) by {
                        assert(loose(v, record, kept@[k]));
                        assert(kept@.contains(kept@[k]));
                    }
                    assert forall|k: int| i < k < current@.len() implies loose(
                        self.model(),
                        record,
                        #[trigger] current@[k],
                    ) by {
                        assert(loose(v, record, current@[k]));
                        assert(current@[k] != current@[i as int]);
                    }
                }
            }
            i = i + 1;
        }
        let ghost v2 = self.model();
        let mut w: usize = 0;
        while w < kept.len()
            invariant
                w <= kept@.len(),
                kept@.no_duplicates(),
                self.sound(-1, -1, -1, -1),
                self.by_frn == old(self).by_frn,
                self.model() == v2,
                v2.surplus() >= 0,
                self.chains@ == rest,
                forall|k: int|
                    0 <= k < kept@.len() ==> loose(v2, record, #[trigger] kept@[k]),
                v2.chains == rest,
                forall|k: int|
                    #![trigger kept@[k]]
                    0 <= k < w ==> self.entries.slots()[kept@[k] as int].next_link == (if k + 1
                        < kept@.len() {
                        kept@[k + 1]
                    } else {
                        NIL
                    }),
                self.grown(before, desired@.len() as int, raw_sum(all), folded_sum(all)),
            decreases kept@.len() - w,
        {
            let next = if w + 1 < kept.len() {
                kept[w + 1]
            } else {
                NIL
            };
            proof {
                assert(loose(v2, record, kept@[w as int]));
                self.lemma_dirty();
                assert(kept@[w as int] < self.entries.slots().len());
            }
            let ghost e = self.entries.slots();
            self.set_link(kept[w], next);
            proof {
                assert forall|k: int|
                    #![trigger kept@[k]]
                    0 <= k < w + 1 implies self.entries.slots()[kept@[k] as int].next_link == (if k
                    + 1 < kept@.len() {
                    kept@[k + 1]
                } else {
                    NIL
                }) by {
                    if k < w {
                        assert(kept@[k] != kept@[w as int]);
                        assert(loose(v2, record, kept@[k]));
                        assert(kept@[k] < e.len()) by {
                            self.lemma_dirty();
                        }
                        assert(self.entries.slots()[kept@[k] as int] == e[kept@[k] as int]);
                    }
                }
            }
            w = w + 1;
        }
        proof {
            assert(loose(v2, record, kept@[0]));
            self.lemma_dirty();
        }
        self.by_frn.set(record, kept[0]);
        proof {
            let e = self.entries.slots();
            let c = kept@;
            self.chains@ = rest.insert(record, c);
            assert(volume::chain_ok(e, self.lost_found, record, c)) by {
                assert forall|k: int| #![trigger c[k]] 0 <= k < c.len() implies {
                    &&& c[k] < e.len()
                    &&& c[k] != self.lost_found
                    &&& e[c[k] as int].live()
                    &&& types::record_of(e[c[k] as int].frn.0) == record
                } by {
                    assert(loose(v2, record, kept@[k]));
                    self.lemma_live(c[k] as int);
                }
            }
            assert forall|r: u64| #[trigger] self.chains@.dom().contains(r) implies volume::chain_ok(
                e,
                self.lost_found,
                r,
                self.chains@[r],
            ) by {
                if r != record {
                    assert(rest.dom().contains(r));
                }
            }
            assert(self.by_frn.map().dom() =~= self.chains@.dom());
            let s = model::relink_all(s0, current@, frn, is_dir, all);
            assert(rechained_links(s0, rest).used == s0.used);
            lemma_unused_rechained(s.volume, rest, current@, s.used, current@.len() as int);
            lemma_relink_rechained(s0, v0.chains, current@, frn, is_dir, all);
            assert(self.chains@ =~= v0.chains.insert(record, c));
            assert(self.model() =~= v0.relinked_to(frn, is_dir, all));
            assert(self.model().stats == v0.stats);
        }
    }

    /// Gives a file exactly the links that it should have. Links that are
    /// there stay; those that should not be there end. The entries of another
    /// file that had the record number before end too.
    pub(super) fn set_chain_links(&mut self, frn: Frn, is_dir: bool, desired: &[LinkTarget])
        requires
            old(self).wf(),
            desired@.len() > 0,
            old(self).room(
                desired@.len() as int,
                raw_sum(targets_of(desired@)),
                folded_sum(targets_of(desired@)),
            ),
            targets_ok(targets_of(desired@), old(self).model().slots.len() as int),
        ensures
            final(self).wf(),
            final(self).model() == old(self).model().relinked(frn, is_dir, targets_of(desired@)),
            final(self).grown(
                *old(self),
                desired@.len() as int,
                raw_sum(targets_of(desired@)),
                folded_sum(targets_of(desired@)),
            ),
    {
        let record = frn.record_number();
        proof {
            self.lemma_head(record);
        }
        if let Some(head) = self.by_frn.get(record) {
            if self.entries.frn(head) != frn {
                self.reclaim_stale_slot(record, head);
            }
        }
        assert(self.model() == old(self).model().claimed(frn));
        self.relink(frn, is_dir, desired);
    }
}

/// A number that is not in the list can be put behind it.
proof fn lemma_pushed(s: Seq<EntryIdx>, x: EntryIdx)
    requires
        s.no_duplicates(),
        !s.contains(x),
    ensures
        s.push(x).no_duplicates(),
{
    assert forall|a: int, b: int|
        0 <= a < s.push(x).len() && 0 <= b < s.push(x).len() && a != b implies s.push(x)[a]
        != s.push(x)[b] by {
        if a < s.len() {
            assert(s.contains(s[a]));
        }
        if b < s.len() {
            assert(s.contains(s[b]));
        }
    }
}

proof fn lemma_pushed_other(s: Seq<EntryIdx>, x: EntryIdx, y: EntryIdx)
    requires
        !s.contains(y),
        x != y,
    ensures
        !s.push(x).contains(y),
{
    if s.push(x).contains(y) {
        let k = choose|k: int| 0 <= k < s.push(x).len() && s.push(x)[k] == y;
        assert(s[k] == y);
    }
}

} // verus!
