//! What an index tells.

use super::VolumeIndex;
use crate::buffers;
use crate::buffers::IndexBuf;
use crate::fold;
use crate::index::dirs;
use crate::index::graph;
use crate::index::laws;
use crate::index::model::{Ent, IndexStats, Volume};
use crate::index::names;
use crate::index::standins;
use crate::index::store::{EntryFlags, Slot, MTIME_UNKNOWN, SIZE_UNKNOWN};
use crate::index::volume;
use crate::le;
use crate::types;
use crate::types::{EntryIdx, Frn, NIL};
use crate::wtf8;
use vstd::prelude::*;

verus! {

/// How many directories a path has at most.
pub const MAX_PATH_HOPS: usize = 4096;

/// What became of a path.
#[derive(Clone, Copy, Debug, PartialEq, Eq, Structural)]
pub enum PathStatus {
    /// The path is whole.
    Whole,
    /// The path starts in the lost and found directory.
    InLostFound,
    /// The parents do not end.
    CycleDetected,
}

/// Where an entry is: in its parent, or in the lost and found directory where
/// its parent has ended under it.
pub open spec fn place(e: Seq<Slot>, lost_found: EntryIdx, i: EntryIdx) -> EntryIdx {
    if graph::cut(e[i as int]) {
        lost_found
    } else {
        e[i as int].parent
    }
}

/// An entry and the directories above it, at most `hops` in all.
pub open spec fn climb(e: Seq<Slot>, lost_found: EntryIdx, i: EntryIdx, hops: int) -> Seq<EntryIdx>
    decreases hops,
{
    if hops <= 1 || place(e, lost_found, i) == NIL {
        seq![i]
    } else {
        seq![i] + climb(e, lost_found, place(e, lost_found, i), hops - 1)
    }
}

/// One more name behind a path.
pub open spec fn extended(path: Seq<u8>, name: Seq<u8>) -> Seq<u8> {
    if path.len() == 0 {
        name
    } else {
        path.push(0x5c) + name
    }
}

impl VolumeIndex {
    /// The columns of the entries.
    pub closed spec fn table(&self) -> Seq<Slot> {
        self.entries.slots()
    }

    /// The name of an entry is stored; this holds of every slot that has an
    /// entry.
    pub closed spec fn named(&self, i: EntryIdx) -> bool {
        i < self.table().len() && self.table()[i as int].name_id < self.ids()
    }

    /// The name that is stored for a slot.
    pub closed spec fn name_of(&self, i: EntryIdx) -> Seq<u8> {
        self.names.model().bytes[self.table()[i as int].name_id as int]
    }

    /// The folded name that is stored for a slot.
    pub closed spec fn folded_of(&self, i: EntryIdx) -> Seq<u8> {
        self.names.folded_of(self.table()[i as int].name_id as int)
    }

    /// What the columns hold of an entry.
    pub proof fn lemma_entry(&self, i: EntryIdx)
        requires
            self.wf(),
        ensures
            self.table().len() == self.model().slots.len(),
            self.table().len() < NIL,
            self.model().has(i as int) ==> {
                let x = self.model().ent(i);
                let s = self.table()[i as int];
                &&& self.named(i)
                &&& self.name_of(i) == x.name
                &&& self.folded_of(i) == fold::folded(x.name)
                &&& s.frn == x.frn
                &&& s.parent == x.parent
                &&& s.size == x.size
                &&& s.mtime == x.mtime
                &&& s.flags.has(EntryFlags::DIR) == x.dir
                &&& s.flags.has(EntryFlags::PLACEHOLDER) == x.placeholder
                &&& s.live()
                &&& graph::cut(s) == self.model().detached.contains(i)
                &&& place(self.table(), self.model().lost_found, i) != NIL ==> self.model().has(
                    place(self.table(), self.model().lost_found, i) as int,
                )
                &&& s.flags.has(EntryFlags::LOST_FOUND) == (i == self.model().lost_found)
                &&& self.model().chained(i) ==> s.next_link == self.model().link_behind(i)
            },
            i < self.table().len() ==> (self.table()[i as int].parent == NIL || self.table()[i as int].parent
                < self.table().len()) && self.table()[i as int].live() == self.model().has(
                i as int,
            ),
            self.model().has(self.model().lost_found as int),
            self.model().root < self.model().slots.len(),
    {
        self.lemma_dirty();
        self.names.lemma_wf();
        if i < self.table().len() {
            self.lemma_live(i as int);
        }
        if self.model().has(i as int) {
            let r = types::record_of(self.model().ent(i).frn.0);
            if self.model().chained(i) {
                assert(volume::chain_ok(self.entries.slots(), self.lost_found, r, self.chains@[r]));
                let k = self.chains@[r].index_of(i);
                assert(self.chains@[r].contains(i));
                assert(self.chains@[r][k] == i);
            }
            assert(graph::there(self.entries.slots(), -1, i as int));
            graph::lemma_name_used(
                self.entries.slots(),
                self.names.model(),
                self.same@,
                -1,
                -1,
            );
            if graph::kid(self.entries.slots(), -1, i as int) {
                assert(graph::exact_node(self.entries.slots(), i as int));
                self.lemma_live(self.entries.slots()[i as int].parent as int);
            }
        }
    }

    /// The path behind `prefix`, from the last of the entries to the first;
    /// the root directory has no name.
    pub open spec fn with_path(&self, prefix: Seq<u8>, c: Seq<EntryIdx>) -> Seq<u8>
        decreases c.len(),
    {
        if c.len() == 0 {
            prefix
        } else {
            self.with_path(
                if c.last() == self.model().root {
                    prefix
                } else {
                    extended(prefix, self.name_of(c.last()))
                },
                c.drop_last(),
            )
        }
    }

    /// An entry and all directories above it.
    pub open spec fn ancestry(&self, i: EntryIdx) -> Seq<EntryIdx> {
        climb(self.table(), self.model().lost_found, i, MAX_PATH_HOPS as int)
    }

    /// Where an entry is.
    pub open spec fn above(&self, i: EntryIdx) -> EntryIdx {
        place(self.table(), self.model().lost_found, i)
    }

    /// The directories above an entry end.
    pub open spec fn ends(&self, i: EntryIdx) -> bool {
        self.above(self.ancestry(i).last()) == NIL
    }

    /// The path of an entry can be told: where the directories above it end,
    /// the names are stored.
    pub open spec fn tellable(&self, i: EntryIdx) -> bool {
        &&& i < self.table().len()
        &&& self.ends(i) ==> forall|k: int|
            0 <= k < self.ancestry(i).len() && (#[trigger] self.ancestry(i)[k])
                != self.model().root ==> self.named(self.ancestry(i)[k])
    }

    /// What becomes of the path of an entry.
    pub open spec fn path_status(&self, i: EntryIdx) -> PathStatus {
        if !self.ends(i) {
            PathStatus::CycleDetected
        } else if self.ancestry(i).last() == self.model().lost_found {
            PathStatus::InLostFound
        } else {
            PathStatus::Whole
        }
    }

    /// Where an entry is: in its parent, or in the lost and found directory
    /// where its parent has ended under it.
    fn place_of(&self, idx: EntryIdx) -> (p: EntryIdx)
        requires
            self.wf(),
            idx < self.table().len(),
        ensures
            p == self.above(idx),
            p == NIL || p < self.table().len(),
    {
        if !self.entries.is_tombstone(idx) && self.entries.flags(idx).contains(
            EntryFlags::CHAIN_DETACHED,
        ) {
            self.lost_found
        } else {
            self.entries.parent(idx)
        }
    }

    /// An entry and all directories above it, as far as they are followed.
    fn ancestors(&self, idx: EntryIdx) -> (chain: IndexBuf)
        requires
            self.wf(),
            idx < self.table().len(),
        ensures
            buffers::indices_of(chain) == self.ancestry(idx),
            self.ancestry(idx).len() > 0,
            forall|k: int|
                0 <= k < self.ancestry(idx).len() ==> #[trigger] self.ancestry(idx)[k]
                    < self.table().len(),
    {
        let ghost e = self.table();
        let ghost lf = self.model().lost_found;
        proof {
            self.entries.lemma_wf();
        }
        let mut chain = buffers::new_indices();
        let mut cur = idx;
        let mut hops: usize = 1;
        let ghost mut up = Seq::<EntryIdx>::empty();
        assert(up + climb(e, lf, cur, MAX_PATH_HOPS as int) =~= self.ancestry(idx));
        while hops < MAX_PATH_HOPS && self.place_of(cur) != NIL
            invariant
                self.wf(),
                self.entries.wf(),
                e == self.table(),
                e == self.entries.slots(),
                lf == self.model().lost_found,
                1 <= hops <= MAX_PATH_HOPS,
                up == buffers::indices_of(chain),
                up.len() == hops - 1,
                cur < e.len(),
                up + climb(e, lf, cur, MAX_PATH_HOPS - hops + 1) == self.ancestry(idx),
                forall|k: int| 0 <= k < up.len() ==> #[trigger] up[k] < e.len(),
            decreases MAX_PATH_HOPS - hops,
        {
            let parent = self.place_of(cur);
            buffers::push_index(&mut chain, cur);
            proof {
                assert(up.push(cur) + climb(e, lf, parent, MAX_PATH_HOPS - hops) =~= up + (seq![cur]
                    + climb(e, lf, parent, MAX_PATH_HOPS - hops)));
                up = up.push(cur);
            }
            cur = parent;
            hops = hops + 1;
        }
        buffers::push_index(&mut chain, cur);
        proof {
            assert(climb(e, lf, cur, MAX_PATH_HOPS - hops + 1) == seq![cur]);
            assert(up + seq![cur] =~= up.push(cur));
        }
        chain
    }

    /// Appends the path of an entry, with backslashes between the names.
    /// Nothing is appended where the parents do not end.
    pub fn path_of(&self, idx: EntryIdx, out: &mut Vec<u8>) -> (status: PathStatus)
        requires
            self.wf(),
            self.tellable(idx),
        ensures
            status == self.path_status(idx),
            final(out)@ == if status == PathStatus::CycleDetected {
                old(out)@
            } else {
                self.with_path(old(out)@, self.ancestry(idx))
            },
    {
        let chain = self.ancestors(idx);
        let list = buffers::index_slice(&chain);
        let ghost e = self.table();
        let ghost up = self.ancestry(idx);
        proof {
            self.entries.lemma_wf();
        }
        let top = list[list.len() - 1];
        if self.place_of(top) != NIL {
            return PathStatus::CycleDetected;
        }
        let in_lost_found = top == self.lost_found;
        let mut k: usize = list.len();
        let ghost want = self.with_path(out@, up);
        assert(up.take(k as int) =~= up);
        while k > 0
            invariant
                self.wf(),
                self.entries.wf(),
                self.names.wf(),
                e == self.table(),
                e == self.entries.slots(),
                k <= list@.len(),
                list@ == up,
                up == self.ancestry(idx),
                self.ends(idx),
                self.tellable(idx),
                want == self.with_path(out@, up.take(k as int)),
            decreases k,
        {
            k = k - 1;
            let i = list[k];
            proof {
                assert(up.take(k + 1).last() == i);
                assert(up.take(k + 1).drop_last() =~= up.take(k as int));
                assert(up[k as int] == i);
            }
            if i != self.root {
                assert(self.named(self.ancestry(idx)[k as int]));
                let ghost before = out@;
                if out.len() > 0 {
                    out.push(0x5c);
                }
                out.extend_from_slice(self.names.raw_bytes(self.entries.name_id(i)));
                assert(out@ =~= extended(before, self.name_of(i)));
            }
        }
        assert(up.take(0) =~= Seq::empty());
        if in_lost_found {
            PathStatus::InLostFound
        } else {
            PathStatus::Whole
        }
    }

    /// Whether the path of an entry can be told.
    pub fn can_tell(&self, idx: EntryIdx) -> (r: bool)
        requires
            self.wf(),
        ensures
            r == self.tellable(idx),
    {
        proof {
            self.entries.lemma_wf();
        }
        if idx as usize >= self.entries.capacity() {
            return false;
        }
        let chain = self.ancestors(idx);
        let list = buffers::index_slice(&chain);
        let top = list[list.len() - 1];
        if self.place_of(top) != NIL {
            return true;
        }
        let mut k: usize = 0;
        while k < list.len()
            invariant
                self.wf(),
                self.entries.wf(),
                self.names.wf(),
                k <= list@.len(),
                list@ == self.ancestry(idx),
                self.ends(idx),
                idx < self.table().len(),
                self.table() == self.entries.slots(),
                forall|j: int| 0 <= j < list@.len() ==> #[trigger] list@[j] < self.table().len(),
                forall|j: int|
                    0 <= j < k && (#[trigger] self.ancestry(idx)[j]) != self.model().root
                        ==> self.named(self.ancestry(idx)[j]),
            decreases list@.len() - k,
        {
            let i = list[k];
            assert(self.ancestry(idx)[k as int] == i);
            if i != self.root && self.entries.name_id(i) as usize >= self.names.ids() {
                assert(!self.named(i));
                return false;
            }
            k = k + 1;
        }
        true
    }

    /// Appends the path of an entry if it can be told; if not, nothing is
    /// appended and there is no answer.
    pub fn try_path_of(&self, idx: EntryIdx, out: &mut Vec<u8>) -> (r: Option<PathStatus>)
        requires
            self.wf(),
        ensures
            r is Some <==> self.tellable(idx),
            r is None ==> final(out)@ == old(out)@,
            r matches Some(status) ==> status == self.path_status(idx) && final(out)@ == if status
                == PathStatus::CycleDetected {
                old(out)@
            } else {
                self.with_path(old(out)@, self.ancestry(idx))
            },
    {
        if self.can_tell(idx) {
            Some(self.path_of(idx, out))
        } else {
            None
        }
    }

    proof fn lemma_climb_there(&self, i: EntryIdx, hops: int)
        requires
            self.wf(),
            self.model().has(i as int),
        ensures
            forall|k: int|
                0 <= k < climb(self.table(), self.model().lost_found, i, hops).len()
                    ==> self.model().has(
                    #[trigger] climb(self.table(), self.model().lost_found, i, hops)[k] as int,
                ),
        decreases hops,
    {
        let e = self.table();
        let lf = self.model().lost_found;
        self.lemma_entry(i);
        let p = place(e, lf, i);
        if hops > 1 && p != NIL {
            self.lemma_climb_there(p, hops - 1);
            let rest = climb(e, lf, p, hops - 1);
            let all = climb(e, lf, i, hops);
            assert forall|k: int| 0 <= k < all.len() implies self.model().has(
                #[trigger] all[k] as int,
            ) by {
                if k > 0 {
                    assert(all[k] == rest[k - 1]);
                }
            }
        }
    }

    /// The path of every entry can be told.
    pub proof fn law_paths_of_entries_can_be_told(&self, i: EntryIdx)
        requires
            self.wf(),
            self.model().has(i as int),
        ensures
            self.tellable(i),
    {
        self.lemma_entry(i);
        self.lemma_climb_there(i, MAX_PATH_HOPS as int);
        assert forall|k: int|
            0 <= k < self.ancestry(i).len() && (#[trigger] self.ancestry(i)[k])
                != self.model().root implies self.named(self.ancestry(i)[k]) by {
            self.lemma_entry(self.ancestry(i)[k]);
        }
    }

    /// An entry whose directory has ended under it is in the lost and found
    /// directory: it is never told under whatever took the slot.
    pub proof fn law_detached_is_lost(&self, i: EntryIdx)
        requires
            self.wf(),
            self.model().has(i as int),
            self.model().detached.contains(i),
        ensures
            self.path_status(i) == PathStatus::InLostFound,
    {
        self.lemma_entry(i);
        let lf = self.model().lost_found;
        self.lemma_entry(lf);
        let e = self.table();
        assert(!graph::cut(e[lf as int]));
        assert(climb(e, lf, lf, MAX_PATH_HOPS - 1) == seq![lf]);
        assert(self.ancestry(i) == seq![i] + seq![lf]);
        assert((seq![i] + seq![lf]).last() == lf);
    }

    proof fn lemma_round(&self, root: EntryIdx, j: EntryIdx, hops: int)
        requires
            self.wf(),
            root < self.model().slots.len(),
            self.is_below(root, root),
            j == root || self.is_below(root, j),
            hops >= 1,
        ensures
            climb(self.table(), self.model().lost_found, j, hops).len() > 0,
            self.above(climb(self.table(), self.model().lost_found, j, hops).last()) != NIL,
        decreases hops,
    {
        self.law_below_means_parents(root, j);
        self.lemma_entry(j);
        let p = self.model().ent(j).parent;
        self.lemma_entry(p);
        if p != root {
            self.law_below_means_parents(root, p);
        }
        self.lemma_entry(root);
        assert(p != NIL);
        if hops > 1 {
            self.lemma_round(root, p, hops - 1);
        }
    }

    /// A directory whose parents end is not below itself.
    pub proof fn law_ended_is_not_below_itself(&self, i: EntryIdx)
        requires
            self.wf(),
            i < self.model().slots.len(),
            self.ends(i),
        ensures
            !self.is_below(i, i),
    {
        if self.is_below(i, i) {
            self.lemma_round(i, i, MAX_PATH_HOPS as int);
        }
    }

    /// Some entry stands in for a directory, as far as they are counted. Where
    /// none does, there is none.
    pub fn has_orphans(&self) -> (r: bool)
        requires
            self.wf(),
        ensures
            r == (self.model().placeholders > 0),
            !r ==> forall|i: EntryIdx| #[trigger]
                self.model().has(i as int) ==> !self.model().ent(i).placeholder,
    {
        proof {
            let slots = self.model().slots;
            standins::lemma_none(slots);
            assert forall|i: EntryIdx|
                self.live_placeholders == 0 && #[trigger] self.model().has(
                    i as int,
                ) implies !self.model().ent(i).placeholder by {
                assert(standins::stands_in(slots[i as int]) <= standins::standins(slots));
            }
        }
        self.live_placeholders > 0
    }

    pub fn root(&self) -> (idx: EntryIdx)
        ensures
            idx == self.model().root,
    {
        self.root
    }

    pub fn lost_found(&self) -> (idx: EntryIdx)
        ensures
            idx == self.model().lost_found,
    {
        self.lost_found
    }

    /// How many batches were applied.
    pub fn generation(&self) -> (n: u64)
        ensures
            n == self.model().generation,
    {
        self.generation
    }

    pub fn stats(&self) -> (s: &IndexStats)
        ensures
            s.model() == self.model().stats,
    {
        &self.stats
    }

    /// How many entries there are.
    pub fn len(&self) -> (n: usize)
        requires
            self.wf(),
        ensures
            n == self.model().slots.len() - self.model().free.len(),
    {
        self.entries.live()
    }

    pub fn is_empty(&self) -> (r: bool)
        requires
            self.wf(),
        ensures
            r == (self.model().slots.len() == self.model().free.len()),
    {
        self.len() == 0
    }

    /// How many slots there are, with an entry or without.
    pub fn allocated(&self) -> (n: usize)
        requires
            self.wf(),
        ensures
            n == self.model().slots.len(),
    {
        self.entries.capacity()
    }

    /// The root, the lost and found directory, or a placeholder. A slot without
    /// an entry is what its last entry was.
    pub fn is_synthetic(&self, idx: EntryIdx) -> (r: bool)
        requires
            self.wf(),
            idx < self.model().slots.len(),
        ensures
            r == (idx == self.model().root || idx == self.model().lost_found
                || self.table()[idx as int].flags.has(EntryFlags::PLACEHOLDER)
                || self.table()[idx as int].flags.has(EntryFlags::LOST_FOUND)),
            self.model().has(idx as int) ==> r == synthetic(self.model(), idx),
    {
        proof {
            self.lemma_entry(idx);
        }
        let flags = self.entries.flags(idx);
        idx == self.root || idx == self.lost_found || flags.contains(EntryFlags::PLACEHOLDER)
            || flags.contains(EntryFlags::LOST_FOUND)
    }

    /// The numbers of the entries, in order.
    pub fn live_entries(&self) -> (list: Vec<EntryIdx>)
        requires
            self.wf(),
        ensures
            list@ == entries_before(self.model(), self.model().slots.len() as int),
    {
        let n = self.entries.capacity();
        let mut list: Vec<EntryIdx> = Vec::new();
        let mut i: usize = 0;
        while i < n
            invariant
                self.wf(),
                self.entries.wf(),
                i <= n,
                n == self.entries.slots().len(),
                n == self.model().slots.len(),
                n < NIL,
                list@ == entries_before(self.model(), i as int),
            decreases n - i,
        {
            proof {
                self.lemma_entry(i as EntryIdx);
            }
            if !self.entries.is_tombstone(i as EntryIdx) {
                list.push(i as EntryIdx);
            }
            i = i + 1;
        }
        list
    }

    /// The paths of all real entries that can be reached from the root, as
    /// text.
    pub fn collect_real_paths(&self) -> (paths: Vec<String>)
        requires
            self.wf(),
        ensures
            text_of(paths@) == self.real_paths(
                entries_before(self.model(), self.model().slots.len() as int),
            ),
    {
        let list = self.live_entries();
        let ghost all = list@;
        let mut paths: Vec<String> = Vec::new();
        let mut i: usize = 0;
        assert(text_of(paths@) =~= self.real_paths(all.take(0)));
        while i < list.len()
            invariant
                self.wf(),
                i <= list@.len(),
                list@ == all,
                all == entries_before(self.model(), self.model().slots.len() as int),
                text_of(paths@) == self.real_paths(all.take(i as int)),
            decreases list@.len() - i,
        {
            let idx = list[i];
            let ghost before = paths@;
            proof {
                assert(all.take(i + 1).drop_last() =~= all.take(i as int));
                assert(all.take(i + 1).last() == idx);
                lemma_entries_before(self.model(), self.model().slots.len() as int);
                assert(self.model().has(all[i as int] as int));
                self.law_paths_of_entries_can_be_told(idx);
            }
            if !self.is_synthetic(idx) {
                let mut buf: Vec<u8> = Vec::new();
                assert(buf@ =~= Seq::empty());
                let status = self.path_of(idx, &mut buf);
                if status == PathStatus::Whole {
                    paths.push(wtf8::to_string_lossy(buf.as_slice()));
                    assert(text_of(paths@) =~= text_of(before).push(paths@.last()@));
                }
            }
            i = i + 1;
        }
        assert(all.take(all.len() as int) =~= all);
        paths
    }

    /// The paths of the real entries in a list, as text.
    pub open spec fn real_paths(&self, list: Seq<EntryIdx>) -> Seq<Seq<char>>
        decreases list.len(),
    {
        if list.len() == 0 {
            Seq::empty()
        } else {
            let rest = self.real_paths(list.drop_last());
            let i = list.last();
            if !synthetic(self.model(), i) && self.path_status(i) == PathStatus::Whole {
                rest.push(wtf8::shown_text(self.with_path(Seq::empty(), self.ancestry(i))))
            } else {
                rest
            }
        }
    }

    /// The folded names, each with a NUL behind it.
    pub fn folded_bytes(&self) -> (b: &[u8])
        requires
            self.wf(),
        ensures
            b@.len() == self.folded_len(),
            forall|i: EntryIdx| #[trigger]
                self.model().has(i as int) ==> 0 <= self.folded_at(i) && self.folded_at(i)
                    + fold::folded(self.model().ent(i).name).len() < b@.len() && b@.subrange(
                    self.folded_at(i),
                    self.folded_at(i) + fold::folded(self.model().ent(i).name).len(),
                ) == fold::folded(self.model().ent(i).name) && b@[self.folded_at(i) + fold::folded(
                    self.model().ent(i).name,
                ).len()] == 0,
    {
        proof {
            self.names.lemma_wf();
            assert forall|i: EntryIdx| #[trigger]
                self.model().has(i as int) implies 0 <= self.folded_at(i) && self.folded_at(i)
                + fold::folded(self.model().ent(i).name).len() < self.names.haystack().len()
                && self.names.haystack().subrange(
                self.folded_at(i),
                self.folded_at(i) + fold::folded(self.model().ent(i).name).len(),
            ) == fold::folded(self.model().ent(i).name) && self.names.haystack()[self.folded_at(i)
                + fold::folded(self.model().ent(i).name).len()] == 0 by {
                self.lemma_entry(i);
                let id = self.table()[i as int].name_id as int;
                assert(0 <= self.names.folded_at(id));
            }
        }
        self.names.folded_haystack()
    }

    /// Where the folded name of an entry starts among all of them.
    pub closed spec fn folded_at(&self, i: EntryIdx) -> int {
        self.names.folded_at(self.table()[i as int].name_id as int)
    }

    /// The folded name of an entry.
    pub fn folded_name(&self, idx: EntryIdx) -> (b: &[u8])
        requires
            self.wf(),
            self.named(idx),
        ensures
            b@ == self.folded_of(idx),
            self.model().has(idx as int) ==> b@ == fold::folded(self.model().ent(idx).name),
    {
        proof {
            self.lemma_entry(idx);
        }
        self.names.folded_bytes_of(self.entries.name_id(idx))
    }

    /// A directory with this parent and folded name. Placeholders and the two
    /// topmost directories are not found so. Where there are several, it is
    /// one of them.
    pub fn child_dir(&self, parent: EntryIdx, folded_name: Vec<u8>) -> (r: Option<EntryIdx>)
        requires
            self.wf(),
        ensures
            match r {
                Some(d) => child_named(self.model(), parent, folded_name@, d),
                None => forall|d: EntryIdx| !#[trigger]
                    child_named(self.model(), parent, folded_name@, d),
            },
    {
        let key = (parent, names::hash_bytes(folded_name.as_slice()));
        let ghost e = self.entries.slots();
        let ghost m = self.names.model();
        let ghost lists = self.dirs.lists();
        proof {
            assert forall|d: EntryIdx| #[trigger]
                child_named(self.model(), parent, folded_name@, d) implies dirs::listed(
                lists,
                key,
                d,
            ) by {
                self.lemma_entry(d);
            }
        }
        match self.dirs.list(key) {
            None => None,
            Some(list) => {
                let mut i: usize = 0;
                while i < list.len()
                    invariant
                        self.wf(),
                        i <= list@.len(),
                        e == self.entries.slots(),
                        m == self.names.model(),
                        lists == self.dirs.lists(),
                        lists.dom().contains(key),
                        list@ == lists[key],
                        key.0 == parent,
                        volume::dirs_ok(e, m, lists, self.root, self.lost_found, -1),
                        forall|k: int|
                            0 <= k < i ==> !child_named(
                                self.model(),
                                parent,
                                folded_name@,
                                #[trigger] list@[k],
                            ),
                    decreases list@.len() - i,
                {
                    let d = list[i];
                    proof {
                        assert(list@.contains(d));
                        assert(dirs::listed(lists, key, d));
                        self.lemma_live(d as int);
                        self.lemma_entry(d);
                    }
                    if !self.entries.flags(d).contains(EntryFlags::CHAIN_DETACHED)
                        && le::same_bytes(self.folded_name(d), folded_name.as_slice()) {
                        return Some(d);
                    }
                    i = i + 1;
                }
                proof {
                    assert forall|d: EntryIdx| !#[trigger]
                        child_named(self.model(), parent, folded_name@, d) by {
                        if child_named(self.model(), parent, folded_name@, d) {
                            assert(dirs::listed(lists, key, d));
                            let k = choose|k: int| 0 <= k < list@.len() && list@[k] == d;
                            assert(!child_named(
                                self.model(),
                                parent,
                                folded_name@,
                                list@[k],
                            ));
                        }
                    }
                }
                None
            },
        }
    }

    /// What an index holds fits together, so the laws of what it holds apply.
    pub proof fn lemma_ok(&self)
        requires
            self.wf(),
        ensures
            self.model().ok(),
    {
        let v = self.model();
        self.lemma_dirty();
        self.entries.lemma_wf();
        assert forall|k: int| #![trigger v.free[k]] 0 <= k < v.free.len() implies v.free[k]
            < v.slots.len() && v.slots[v.free[k] as int] is None by {
            self.lemma_live(v.free[k] as int);
        }
        assert forall|r: u64| #[trigger] v.chains.dom().contains(r) implies v.chain_ok(
            r,
            v.chains[r],
        ) by {
            let c = v.chains[r];
            assert(volume::chain_ok(self.entries.slots(), self.lost_found, r, c));
            assert forall|k: int| #![trigger c[k]] 0 <= k < c.len() implies v.has(c[k] as int)
                && c[k] != v.lost_found && types::record_of(v.ent(c[k]).frn.0) == r by {
                self.lemma_live(c[k] as int);
            }
        }
    }

    /// No placeholder goes uncounted.
    pub proof fn lemma_surplus(&self)
        requires
            self.wf(),
        ensures
            self.model().surplus() >= 0,
    {
    }

    /// What is told last is the first entry.
    pub(super) proof fn lemma_first_last(&self, prefix: Seq<u8>, i: EntryIdx, rest: Seq<EntryIdx>)
        ensures
            self.with_path(prefix, seq![i] + rest) == (if i == self.model().root {
                self.with_path(prefix, rest)
            } else {
                extended(self.with_path(prefix, rest), self.name_of(i))
            }),
        decreases rest.len(),
    {
        let all = seq![i] + rest;
        if rest.len() == 0 {
            assert(all =~= seq![i]);
            assert(all.drop_last() =~= Seq::empty());
            assert(all.last() == i);
            let step = if i == self.model().root {
                prefix
            } else {
                extended(prefix, self.name_of(i))
            };
            assert(self.with_path(step, all.drop_last()) == step);
        } else {
            assert(all.last() == rest.last());
            assert(all.drop_last() =~= seq![i] + rest.drop_last());
            let step = if rest.last() == self.model().root {
                prefix
            } else {
                extended(prefix, self.name_of(rest.last()))
            };
            self.lemma_first_last(step, i, rest.drop_last());
        }
    }

    /// The path of an entry is the path of its parent and its own name: after
    /// a directory was renamed or moved, everything below it is found under
    /// the new path.
    pub proof fn law_path_extends_the_parent(&self, i: EntryIdx, prefix: Seq<u8>)
        requires
            self.wf(),
            self.model().has(i as int),
            i != self.model().root,
            self.model().ent(i).parent != NIL,
            !self.model().detached.contains(i),
            self.ends(i),
        ensures
            ({
                let p = self.model().ent(i).parent;
                &&& self.ends(p)
                &&& self.path_status(i) == self.path_status(p)
                &&& self.with_path(prefix, self.ancestry(i)) == extended(
                    self.with_path(prefix, self.ancestry(p)),
                    self.model().ent(i).name,
                )
            }),
    {
        self.lemma_entry(i);
        let e = self.table();
        let p = e[i as int].parent;
        let lf = self.model().lost_found;
        let rest = climb(e, lf, p, MAX_PATH_HOPS - 1);
        assert(self.ancestry(i) == seq![i] + rest);
        lemma_climb_longer(e, lf, p, MAX_PATH_HOPS - 1);
        assert((seq![i] + rest).last() == rest.last());
        self.lemma_first_last(prefix, i, rest);
    }

    /// In an index that mirrors a file system, the path of a file is made of
    /// the names of the directories above it, from the root down.
    pub proof fn law_paths_are_those_of_the_mirror(
        &self,
        files: Map<Frn, laws::File>,
        root: Frn,
        f: Frn,
        depth: int,
    )
        requires
            self.wf(),
            laws::files_ok(files, root),
            laws::mirrors(self.model(), files, root, files.dom()),
            laws::known(files, root, f),
            below_root(files, root, f, depth),
            depth < MAX_PATH_HOPS,
        ensures
            self.model().head(f) is Some,
            self.path_status(self.model().head(f)->0) == PathStatus::Whole,
            self.with_path(Seq::empty(), self.ancestry(self.model().head(f)->0)) == file_path(
                files,
                root,
                f,
                depth,
            ),
        decreases depth,
    {
        self.lemma_ok();
        let v = self.model();
        let h = v.head(f)->0;
        if f == root {
            self.lemma_entry(v.root);
            let r = types::record_of(root.0);
            assert(v.chain_ok(r, v.chains[r]));
            assert(v.has(v.root as int));
            assert(self.ancestry(h) == seq![h]);
            assert(seq![h].last() == h);
            self.lemma_first_last(Seq::empty(), h, Seq::empty());
            assert(seq![h] + Seq::<EntryIdx>::empty() =~= seq![h]);
        } else {
            assert(laws::shown(v, files, f));
            let p = files[f].parent;
            let r = types::record_of(f.0);
            assert(v.chain_ok(r, v.chains[r]));
            assert(v.has(h as int));
            assert(h != v.root) by {
                assert(v.ent(v.root).frn == root);
            }
            assert(laws::known(files, root, p));
            self.law_paths_are_those_of_the_mirror(files, root, p, depth - 1);
            let q = v.head(p)->0;
            self.lemma_entry(h);
            self.lemma_entry(q);
            self.lemma_ends_below(h, q, files, root, p, depth - 1);
            self.law_path_extends_the_parent(h, Seq::empty());
        }
    }

    /// A few hops above a file the directories end.
    proof fn lemma_ends_below(
        &self,
        h: EntryIdx,
        q: EntryIdx,
        files: Map<Frn, laws::File>,
        root: Frn,
        p: Frn,
        depth: int,
    )
        requires
            self.wf(),
            laws::files_ok(files, root),
            laws::mirrors(self.model(), files, root, files.dom()),
            laws::known(files, root, p),
            below_root(files, root, p, depth),
            depth + 1 < MAX_PATH_HOPS,
            self.model().head(p) == Some(q),
            self.above(h) == q,
            q != NIL,
        ensures
            self.ends(h),
    {
        self.lemma_climb_ends(files, root, p, depth, MAX_PATH_HOPS - 1);
        let rest = climb(self.table(), self.model().lost_found, q, MAX_PATH_HOPS - 1);
        assert(self.ancestry(h) == seq![h] + rest);
        assert((seq![h] + rest).last() == rest.last());
    }

    proof fn lemma_climb_ends(
        &self,
        files: Map<Frn, laws::File>,
        root: Frn,
        f: Frn,
        depth: int,
        hops: int,
    )
        requires
            self.wf(),
            laws::files_ok(files, root),
            laws::mirrors(self.model(), files, root, files.dom()),
            laws::known(files, root, f),
            below_root(files, root, f, depth),
            depth < hops,
        ensures
            self.model().head(f) is Some,
            climb(self.table(), self.model().lost_found, self.model().head(f)->0, hops).len() > 0,
            self.above(
                climb(self.table(), self.model().lost_found, self.model().head(f)->0, hops).last(),
            ) == NIL,
        decreases depth,
    {
        self.lemma_ok();
        let v = self.model();
        let e = self.table();
        let lf = v.lost_found;
        if f == root {
            let r = types::record_of(root.0);
            assert(v.chain_ok(r, v.chains[r]));
            assert(v.has(v.root as int));
            self.lemma_entry(v.root);
        } else {
            assert(laws::shown(v, files, f));
            let r = types::record_of(f.0);
            assert(v.chain_ok(r, v.chains[r]));
            let h = v.head(f)->0;
            assert(v.has(h as int));
            self.lemma_entry(h);
            let p = files[f].parent;
            assert(laws::known(files, root, p));
            self.lemma_climb_ends(files, root, p, depth - 1, hops - 1);
            let q = v.head(p)->0;
            assert(e[h as int].parent == q);
            let rp = types::record_of(p.0);
            assert(v.chain_ok(rp, v.chains[rp]));
            assert(v.has(q as int));
            assert((seq![h] + climb(e, lf, q, hops - 1)).last() == climb(e, lf, q, hops - 1).last());
        }
    }

    /// A view of one entry.
    pub fn entry(&self, idx: EntryIdx) -> (v: EntryView<'_>)
        ensures
            v.index() == *self,
            v.idx() == idx,
    {
        EntryView { index: self, idx }
    }
}

/// The file is at most so many directories below the root.
pub open spec fn below_root(files: Map<Frn, laws::File>, root: Frn, f: Frn, depth: int) -> bool
    decreases depth,
{
    f == root || (depth > 0 && files.dom().contains(f) && below_root(
        files,
        root,
        files[f].parent,
        depth - 1,
    ))
}

/// The names of the directories from the root down to a file.
pub open spec fn file_path(files: Map<Frn, laws::File>, root: Frn, f: Frn, depth: int) -> Seq<u8>
    decreases depth,
{
    if f == root || depth <= 0 {
        Seq::empty()
    } else {
        extended(file_path(files, root, files[f].parent, depth - 1), files[f].name)
    }
}

/// Where the directories end, more hops change nothing.
proof fn lemma_climb_longer(e: Seq<Slot>, lf: EntryIdx, i: EntryIdx, hops: int)
    requires
        place(e, lf, climb(e, lf, i, hops).last()) == NIL,
    ensures
        climb(e, lf, i, hops + 1) == climb(e, lf, i, hops),
        climb(e, lf, i, hops).len() > 0,
    decreases hops,
{
    let p = place(e, lf, i);
    if hops > 1 && p != NIL {
        let rest = climb(e, lf, p, hops - 1);
        lemma_climb_some(e, lf, p, hops - 1);
        assert((seq![i] + rest).last() == rest.last());
        lemma_climb_longer(e, lf, p, hops - 1);
    } else if p != NIL {
        assert(seq![i].last() == i);
    }
}

proof fn lemma_climb_some(e: Seq<Slot>, lf: EntryIdx, i: EntryIdx, hops: int)
    ensures
        climb(e, lf, i, hops).len() > 0,
{
}

/// The root, the lost and found directory, or a placeholder.
pub open spec fn synthetic(v: Volume, i: EntryIdx) -> bool {
    i == v.root || i == v.lost_found || v.ent(i).placeholder
}

/// A directory with this parent and folded name. One that has lost its own
/// directory is in none.
pub open spec fn child_named(v: Volume, parent: EntryIdx, folded: Seq<u8>, d: EntryIdx) -> bool {
    &&& v.has(d as int)
    &&& v.ent(d).dir
    &&& !synthetic(v, d)
    &&& v.ent(d).parent == parent
    &&& !v.detached.contains(d)
    &&& fold::folded(v.ent(d).name) == folded
}

/// The entries in the first `n` slots, in order.
pub open spec fn entries_before(v: Volume, n: int) -> Seq<EntryIdx>
    decreases n,
{
    if n <= 0 {
        Seq::empty()
    } else if v.has(n - 1) {
        entries_before(v, n - 1).push((n - 1) as EntryIdx)
    } else {
        entries_before(v, n - 1)
    }
}

/// The list of entries holds each of them.
pub proof fn lemma_entries_before(v: Volume, n: int)
    requires
        0 <= n <= v.slots.len() <= NIL,
    ensures
        forall|k: int|
            0 <= k < entries_before(v, n).len() ==> v.has(#[trigger] entries_before(v, n)[k] as int)
                && entries_before(v, n)[k] < n,
        forall|i: int|
            0 <= i < n && #[trigger] v.has(i) ==> entries_before(v, n).contains(i as EntryIdx),
    decreases n,
{
    if n > 0 {
        lemma_entries_before(v, n - 1);
        let rest = entries_before(v, n - 1);
        let all = entries_before(v, n);
        assert forall|k: int| 0 <= k < all.len() implies v.has(#[trigger] all[k] as int) && all[k]
            < n by {
            if k < rest.len() {
                assert(all[k] == rest[k]);
            }
        }
        assert forall|i: int| 0 <= i < n && #[trigger] v.has(i) implies all.contains(
            i as EntryIdx,
        ) by {
            if i < n - 1 {
                let k = choose|k: int| 0 <= k < rest.len() && rest[k] == i as EntryIdx;
                assert(all[k] == i as EntryIdx);
            } else {
                assert(all[rest.len() as int] == i as EntryIdx);
            }
        }
    }
}

pub open spec fn text_of(v: Seq<String>) -> Seq<Seq<char>> {
    v.map_values(|s: String| s@)
}

/// One entry of an index.
pub struct EntryView<'a> {
    index: &'a VolumeIndex,
    idx: EntryIdx,
}

impl<'a> EntryView<'a> {
    pub closed spec fn index(&self) -> VolumeIndex {
        *self.index
    }

    pub closed spec fn idx(&self) -> EntryIdx {
        self.idx
    }

    /// The slot that is looked at.
    pub open spec fn slot(&self) -> Slot {
        self.index().table()[self.idx() as int]
    }

    /// The slot is one of the index.
    pub open spec fn valid(&self) -> bool {
        self.index().wf() && self.idx() < self.index().table().len()
    }

    /// The slot holds an entry.
    pub open spec fn live(&self) -> bool {
        self.index().model().has(self.idx() as int)
    }

    /// The entry.
    pub open spec fn ent(&self) -> Ent {
        self.index().model().ent(self.idx())
    }

    pub fn frn(&self) -> (r: Frn)
        requires
            self.valid(),
        ensures
            r == self.slot().frn,
            self.live() ==> r == self.ent().frn,
    {
        proof {
            self.index.lemma_entry(self.idx);
        }
        self.index.entries.frn(self.idx)
    }

    pub fn name(&self) -> (r: &[u8])
        requires
            self.valid(),
            self.index().named(self.idx()),
        ensures
            r@ == self.index().name_of(self.idx()),
            self.live() ==> r@ == self.ent().name,
    {
        proof {
            self.index.lemma_entry(self.idx);
        }
        self.index.names.raw_bytes(self.index.entries.name_id(self.idx))
    }

    pub fn folded_name(&self) -> (r: &[u8])
        requires
            self.valid(),
            self.index().named(self.idx()),
        ensures
            r@ == self.index().folded_of(self.idx()),
            self.live() ==> r@ == fold::folded(self.ent().name),
    {
        self.index.folded_name(self.idx)
    }

    pub fn is_dir(&self) -> (r: bool)
        requires
            self.valid(),
        ensures
            r == self.slot().flags.has(EntryFlags::DIR),
            self.live() ==> r == self.ent().dir,
    {
        proof {
            self.index.lemma_entry(self.idx);
        }
        self.index.entries.flags(self.idx).contains(EntryFlags::DIR)
    }

    /// The size, if it is known.
    pub fn size(&self) -> (r: Option<u64>)
        requires
            self.valid(),
        ensures
            r == (if self.slot().size == SIZE_UNKNOWN {
                None
            } else {
                Some(self.slot().size)
            }),
            self.live() ==> self.slot().size == self.ent().size,
    {
        proof {
            self.index.lemma_entry(self.idx);
        }
        let s = self.index.entries.size(self.idx);
        if s == SIZE_UNKNOWN {
            None
        } else {
            Some(s)
        }
    }

    /// The time of the last write, if it is known.
    pub fn mtime(&self) -> (r: Option<i64>)
        requires
            self.valid(),
        ensures
            r == (if self.slot().mtime == MTIME_UNKNOWN {
                None
            } else {
                Some(self.slot().mtime)
            }),
            self.live() ==> self.slot().mtime == self.ent().mtime,
    {
        proof {
            self.index.lemma_entry(self.idx);
        }
        let m = self.index.entries.mtime(self.idx);
        if m == MTIME_UNKNOWN {
            None
        } else {
            Some(m)
        }
    }

    /// The parent, or the sentinel. Of an entry whose parent has ended under it,
    /// the slot where it was.
    pub fn parent(&self) -> (r: EntryIdx)
        requires
            self.valid(),
        ensures
            r == self.slot().parent,
            self.live() ==> r == self.ent().parent,
    {
        proof {
            self.index.lemma_entry(self.idx);
        }
        self.index.entries.parent(self.idx)
    }

    /// The next link of the file, or the sentinel.
    pub fn next_link(&self) -> (r: EntryIdx)
        requires
            self.valid(),
        ensures
            r == self.slot().next_link,
            self.live() && self.index().model().chained(self.idx()) ==> r
                == self.index().model().link_behind(self.idx()),
    {
        proof {
            self.index.lemma_entry(self.idx);
        }
        self.index.entries.next_link(self.idx)
    }
}

/// Names on a path have a backslash between them, and none in front or behind.
pub proof fn law_names_are_joined_by_backslashes(path: Seq<u8>, name: Seq<u8>)
    ensures
        path.len() == 0 ==> extended(path, name) == name,
        path.len() > 0 ==> extended(path, name) == path + seq![0x5Cu8] + name,
{
    if path.len() > 0 {
        assert(path.push(0x5c) =~= path + seq![0x5Cu8]);
    }
}

/// The entries come out in the order of their slots, each once, and none is
/// left out.
pub proof fn law_entries_come_in_order(v: Volume, n: int, i: int, j: int)
    requires
        0 <= n <= v.slots.len() <= NIL,
        0 <= i < j < entries_before(v, n).len(),
    ensures
        entries_before(v, n)[i] < entries_before(v, n)[j] < n,
        v.has(entries_before(v, n)[i] as int),
        v.has(entries_before(v, n)[j] as int),
    decreases n,
{
    lemma_entries_before(v, n);
    if n > 0 {
        let rest = entries_before(v, n - 1);
        lemma_entries_before(v, n - 1);
        if j < rest.len() {
            law_entries_come_in_order(v, n - 1, i, j);
        }
        assert(entries_before(v, n)[i] == rest[i]);
        if j < rest.len() {
            assert(entries_before(v, n)[j] == rest[j]);
        }
    }
}

/// A directory in a directory is found by its folded name and by no other; a
/// placeholder, a file, and what has lost its place are not.
pub proof fn law_directories_are_found_by_name(
    v: Volume,
    parent: EntryIdx,
    folded: Seq<u8>,
    d: EntryIdx,
)
    requires
        v.has(d as int),
    ensures
        child_named(v, parent, folded, d) <==> {
            &&& v.ent(d).dir
            &&& v.ent(d).parent == parent
            &&& fold::folded(v.ent(d).name) == folded
            &&& !v.ent(d).placeholder
            &&& d != v.root
            &&& d != v.lost_found
            &&& !v.detached.contains(d)
        },
{
}

} // verus!
