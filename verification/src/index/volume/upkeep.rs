//! Names that are no longer in use, and memory.

use super::VolumeIndex;
use crate::index::dirs;
use crate::index::frn_map;
use crate::index::graph;
use crate::index::names;
use crate::index::names::{CompactedNames, NameModel};
use crate::index::store;
use crate::index::store::{ComponentBytes, NameId, Slot};
use crate::index::volume;
use crate::types::{EntryIdx, NIL};
use vstd::prelude::*;

verus! {

/// Names without those that are no longer in use, ready to be put in place.
pub struct CompactPlan(CompactedNames);

impl CompactPlan {
    /// The plan was made for the names that the index has.
    pub closed spec fn plans(&self, index: VolumeIndex) -> bool {
        self.0.plans(index.names.model())
    }
}

/// Bytes of the parts of an index.
#[derive(Clone, Copy, Debug, PartialEq, Eq)]
pub struct IndexMemory {
    pub entries: ComponentBytes,
    pub arena_raw: ComponentBytes,
    pub arena_folded: ComponentBytes,
    pub frn_map: ComponentBytes,
    pub name_tables: ComponentBytes,
    pub dir_children: ComponentBytes,
    pub frn_map_kind: &'static str,
}

/// The sum of six numbers of bytes, cut off at the greatest number.
pub open spec fn sum6(a: u64, b: u64, c: u64, d: u64, e: u64, f: u64) -> u64 {
    store::capped(a + b + c + d + e + f)
}

impl IndexMemory {
    /// The bytes of all parts.
    pub fn total(&self) -> (c: ComponentBytes)
        ensures
            c.used == sum6(
                self.entries.used,
                self.arena_raw.used,
                self.arena_folded.used,
                self.frn_map.used,
                self.name_tables.used,
                self.dir_children.used,
            ),
            c.allocated == sum6(
                self.entries.allocated,
                self.arena_raw.allocated,
                self.arena_folded.allocated,
                self.frn_map.allocated,
                self.name_tables.allocated,
                self.dir_children.allocated,
            ),
    {
        self.entries.plus(self.arena_raw).plus(self.arena_folded).plus(self.frn_map).plus(
            self.name_tables,
        ).plus(self.dir_children)
    }
}

impl Default for IndexMemory {
    fn default() -> (m: IndexMemory)
        ensures
            m.entries == (ComponentBytes { used: 0, allocated: 0 }),
            m.arena_raw == m.entries,
            m.arena_folded == m.entries,
            m.frn_map == m.entries,
            m.name_tables == m.entries,
            m.dir_children == m.entries,
            m.frn_map_kind@ == ""@,
    {
        let none = ComponentBytes { used: 0, allocated: 0 };
        IndexMemory {
            entries: none,
            arena_raw: none,
            arena_folded: none,
            frn_map: none,
            name_tables: none,
            dir_children: none,
            frn_map_kind: "",
        }
    }
}

/// Each new name stands for one that was in use.
proof fn lemma_came_from(refs: Seq<u32>, n: int, c: int) -> (k: int)
    requires
        0 <= n <= refs.len(),
        0 <= c < names::used_before(refs, n),
    ensures
        0 <= k < n,
        refs[k] > 0,
        names::used_before(refs, k) == c,
    decreases n,
{
    if names::used_before(refs, n - 1) == c {
        n - 1
    } else {
        lemma_came_from(refs, n - 1, c)
    }
}

/// Names in use keep their order, so no two become one.
proof fn lemma_used_apart(refs: Seq<u32>, i: int, j: int)
    requires
        0 <= i < j <= refs.len(),
        refs[i] > 0,
    ensures
        names::used_before(refs, i) < names::used_before(refs, j),
    decreases j,
{
    if i < j - 1 {
        lemma_used_apart(refs, i, j - 1);
    }
}

/// The entries have the new numbers of their names.
spec fn renumbered(a: Seq<Slot>, b: Seq<Slot>, remap: Seq<NameId>, n: int) -> bool {
    &&& a.len() == b.len()
    &&& forall|i: int|
        0 <= i < a.len() ==> #[trigger] b[i] == (Slot {
            name_id: if i < n && a[i].live() {
                remap[a[i].name_id as int]
            } else {
                a[i].name_id
            },
            ..a[i]
        })
}

proof fn lemma_renumbered(
    a: Seq<Slot>,
    b: Seq<Slot>,
    m: NameModel,
    m2: NameModel,
    remap: Seq<NameId>,
    o: graph::Order,
)
    requires
        graph::names_ok(a, m, o, -1, -1),
        names::compacted(m, m2, remap),
        m2.heads.len() == m2.refs.len(),
        renumbered(a, b, remap, a.len() as int),
        a.len() <= NIL,
    ensures
        graph::names_ok(b, m2, o, -1, -1),
        forall|i: int|
            0 <= i < b.len() && a[i].live() ==> (#[trigger] b[i]).name_id < m2.refs.len()
                && m2.bytes[b[i].name_id as int] == m.bytes[a[i].name_id as int],
{
    graph::lemma_name_used(a, m, o, -1, -1);
    assert forall|i: int| #[trigger] graph::there(b, -1, i) == graph::there(a, -1, i) by {}
    assert forall|i: int| #[trigger] graph::there(a, -1, i) implies m.used(a[i].name_id as int)
        && names::went(m, m2, remap, a[i].name_id as int) && b[i].name_id
        == remap[a[i].name_id as int] by {}
    assert forall|i: int| graph::there(b, -1, i) implies #[trigger] graph::same_node(
        b,
        m2.heads,
        o,
        -1,
        i,
    ) by {
        assert(graph::there(a, -1, i));
        assert(graph::same_node(a, m.heads, o, -1, i));
        let n = a[i].next_same as int;
        let p = a[i].prev_same as int;
        if a[i].next_same != NIL {
            assert(graph::there(b, -1, n) == graph::there(a, -1, n));
        }
        if a[i].prev_same != NIL {
            assert(graph::there(b, -1, p) == graph::there(a, -1, p));
        }
    }
    assert forall|c: int| 0 <= c < m2.heads.len() implies #[trigger] graph::head_node(
        b,
        m2.heads,
        -1,
        c,
    ) by {
        let k = lemma_came_from(m.refs, m.refs.len() as int, c);
        assert(m.used(k));
        assert(names::went(m, m2, remap, k));
        assert(graph::head_node(a, m.heads, -1, k));
        let h = m.heads[k] as int;
        assert(graph::there(b, -1, h) == graph::there(a, -1, h));
    }
    assert forall|c: int| 0 <= c < m2.refs.len() implies #[trigger] m2.refs[c] == graph::users(
        b,
        c,
        -1,
        b.len() as int,
    ) + 0int by {
        let k = lemma_came_from(m.refs, m.refs.len() as int, c);
        assert(m.used(k));
        assert(names::went(m, m2, remap, k));
        assert forall|i: int|
            0 <= i < b.len() && graph::there(a, -1, i) implies (a[i].name_id == k <==> b[i].name_id
            == c) by {
            let d = a[i].name_id as int;
            assert(names::went(m, m2, remap, d));
            if d < k {
                lemma_used_apart(m.refs, d, k);
            } else if k < d {
                lemma_used_apart(m.refs, k, d);
            }
        }
        lemma_users_renumbered(a, b, k, c, a.len() as int);
        assert(m.refs[k] == graph::users(a, k, -1, a.len() as int));
    }
    assert forall|i: int| 0 <= i < b.len() && a[i].live() implies (#[trigger] b[i]).name_id
        < m2.refs.len() && m2.bytes[b[i].name_id as int] == m.bytes[a[i].name_id as int] by {
        assert(graph::there(a, -1, i));
    }
}

proof fn lemma_users_renumbered(a: Seq<Slot>, b: Seq<Slot>, k: int, c: int, n: int)
    requires
        0 <= n <= a.len() == b.len(),
        forall|i: int| #[trigger] graph::there(b, -1, i) == graph::there(a, -1, i),
        forall|i: int|
            0 <= i < b.len() && #[trigger] graph::there(a, -1, i) ==> (a[i].name_id == k
                <==> b[i].name_id == c),
    ensures
        graph::users(a, k, -1, n) == graph::users(b, c, -1, n),
    decreases n,
{
    if n > 0 {
        lemma_users_renumbered(a, b, k, c, n - 1);
        assert(graph::there(b, -1, n - 1) == graph::there(a, -1, n - 1));
    }
}

impl VolumeIndex {
    /// Names without those that are no longer in use, where enough of them
    /// are.
    pub fn plan_compaction(&self) -> (r: Option<CompactPlan>)
        requires
            self.wf(),
        ensures
            r is Some <==> self.wants_compact(),
            r matches Some(plan) ==> plan.plans(*self),
    {
        if !self.names.should_compact() {
            return None;
        }
        Some(CompactPlan(self.names.plan_compact()))
    }

    /// Puts the planned names in place. Every entry keeps its name.
    pub fn apply_compaction(&mut self, plan: CompactPlan)
        requires
            old(self).wf(),
            plan.plans(*old(self)),
        ensures
            final(self).wf(),
            final(self).model() == old(self).model(),
            final(self).garbage() == 0,
            !final(self).wants_compact(),
    {
        let ghost a = self.entries.slots();
        let ghost m = self.names.model();
        proof {
            self.entries.lemma_wf();
            self.names.lemma_wf();
            graph::lemma_name_used(a, m, self.same@, -1, -1);
        }
        let remap = self.names.install_compacted(plan.0);
        let ghost m2 = self.names.model();
        let n = self.entries.capacity();
        let mut i: usize = 0;
        while i < n
            invariant
                i <= n,
                n == a.len(),
                n < NIL,
                self.entries.wf(),
                self.entries.free() == old(self).entries.free(),
                renumbered(a, self.entries.slots(), remap@, i as int),
                remap@.len() == m.refs.len(),
                forall|k: int| #[trigger] graph::there(a, -1, k) ==> m.used(a[k].name_id as int),
                *self == (VolumeIndex { entries: self.entries, names: self.names, ..*old(self) }),
                self.names.wf(),
                self.names.model() == m2,
                self.names.garbage() == 0,
            decreases n - i,
        {
            let idx = i as EntryIdx;
            let ghost b = self.entries.slots();
            proof {
                assert(b[i as int].name_id == a[i as int].name_id);
                assert(b[i as int].flags == a[i as int].flags);
            }
            if !self.entries.is_tombstone(idx) {
                assert(graph::there(a, -1, i as int));
                let new_id = remap[self.entries.name_id(idx) as usize];
                self.entries.set_name_id(idx, new_id);
            }
            proof {
                let c = self.entries.slots();
                assert forall|k: int| 0 <= k < a.len() implies #[trigger] c[k] == (Slot {
                    name_id: if k < i + 1 && a[k].live() {
                        remap@[a[k].name_id as int]
                    } else {
                        a[k].name_id
                    },
                    ..a[k]
                }) by {
                    assert(b[k] == (Slot {
                        name_id: if k < i && a[k].live() {
                            remap@[a[k].name_id as int]
                        } else {
                            a[k].name_id
                        },
                        ..a[k]
                    }));
                }
            }
            i = i + 1;
        }
        proof {
            let b = self.entries.slots();
            self.names.lemma_wf();
            lemma_renumbered(a, b, m, m2, remap@, self.same@);
            assert forall|k: int| #[trigger] graph::kid(b, -1, k) <==> graph::kid(a, -1, k) by {}
            graph::lemma_kids_to(a, -1, b, -1, self.kids@);
            assert forall|k: int| 0 <= k < a.len() implies graph::exact_node(a, k)
                == #[trigger] graph::exact_node(b, k) by {
                assert(b[k].parent == a[k].parent);
                let p = a[k].parent as int;
                if p < a.len() {
                    assert(b[p].first_child == a[p].first_child);
                }
            }
            if graph::exact(a, -1) {
                assert forall|k: int| graph::kid(b, -1, k) implies #[trigger] graph::exact_node(
                    b,
                    k,
                ) by {
                    assert(graph::kid(a, -1, k));
                    assert(graph::exact_node(a, k));
                }
            }
            if graph::exact(b, -1) {
                assert forall|k: int| graph::kid(a, -1, k) implies #[trigger] graph::exact_node(
                    a,
                    k,
                ) by {
                    assert(graph::kid(b, -1, k));
                    assert(graph::exact_node(b, k));
                }
            }
            volume::lemma_dirs_to(
                a,
                m,
                -1,
                b,
                m2,
                -1,
                self.dirs.lists(),
                self.root,
                self.lost_found,
            );
            assert(volume::chains_ok(b, self.lost_found, self.chains@)) by {
                assert forall|r: u64| #[trigger] self.chains@.dom().contains(r) implies volume::chain_ok(
                    b,
                    self.lost_found,
                    r,
                    self.chains@[r],
                ) by {
                    let c = self.chains@[r];
                    assert(volume::chain_ok(a, self.lost_found, r, c));
                    assert forall|k: int| #![trigger c[k]] 0 <= k < c.len() implies b[c[k] as int].frn
                        == a[c[k] as int].frn by {}
                }
            }
            assert(volume::parents_ok(b)) by {
                assert forall|k: int| 0 <= k < b.len() implies (#[trigger] b[k]).parent == NIL
                    || b[k].parent < b.len() by {
                    assert(b[k].parent == a[k].parent);
                }
            }
            assert(self.model().slots =~= old(self).model().slots);
        }
    }

    /// There are no more lists of directories than entries.
    proof fn lemma_list_count(&self)
        requires
            self.wf(),
        ensures
            self.dirs.lists().dom().len() <= NIL,
    {
        let lists = self.dirs.lists();
        let e = self.entries.slots();
        let m = self.names.model();
        let n = e.len() as int;
        let whole = vstd::set_lib::set_int_range(0, n);
        let f = |i: int| volume::key_of(e, m, i);
        vstd::set_lib::lemma_int_range(0, n);
        vstd::set_lib::lemma_map_size_bound(whole, whole.map(f), f);
        assert(lists.dom().subset_of(whole.map(f))) by {
            assert forall|key: (EntryIdx, u64)| lists.dom().contains(key) implies whole.map(
                f,
            ).contains(key) by {
                let i = lists[key][0];
                assert(lists[key].contains(i));
                assert(crate::index::dirs::listed(lists, key, i));
                assert(whole.contains(i as int) && f(i as int) == key);
            }
        }
        vstd::set_lib::lemma_len_subset(lists.dom(), whole.map(f));
    }

    /// Bytes of the parts.
    pub fn memory(&self) -> (m: IndexMemory)
        requires
            self.wf(),
        ensures
            m.entries.used == self.model().slots.len() * 57 + self.model().free.len() * 4,
            m.arena_raw.used == self.raw_len(),
            m.arena_folded.used == self.folded_len(),
            m.frn_map.used == (if self.sparse() {
                self.model().chains.dom().len() as int * 17
            } else {
                store::capped(self.table_len() * 4) as int
            }),
            m.frn_map_kind@ == (if self.sparse() {
                "sparse"@
            } else {
                "dense"@
            }),
            m.name_tables.used == self.ids() * 24 + self.known() * 5,
            m.dir_children.used == self.dir_lists() * dirs::bucket_len(),
            m.entries.allocated >= m.entries.used,
            m.arena_raw.allocated >= m.arena_raw.used,
            m.arena_folded.allocated >= m.arena_folded.used,
            m.frn_map.allocated >= m.frn_map.used,
            m.name_tables.allocated >= m.name_tables.used,
            m.dir_children.allocated >= m.dir_children.used,
    {
        proof {
            self.lemma_list_count();
            self.lemma_dirty();
            self.lemma_record_count();
        }
        IndexMemory {
            entries: self.entries.memory(),
            arena_raw: self.names.raw_mem(),
            arena_folded: self.names.folded_mem(),
            frn_map: self.by_frn.memory(),
            name_tables: self.names.tables_mem(),
            dir_children: self.dirs.memory(),
            frn_map_kind: self.by_frn.kind(),
        }
    }

    /// How many names are in use.
    pub closed spec fn known(&self) -> int {
        self.names.known() as int
    }

    /// How many pairs of a parent and a folded name lead to directories.
    pub closed spec fn dir_lists(&self) -> int {
        self.dirs.lists().dom().len() as int
    }

    /// How long the table of record numbers is.
    pub closed spec fn table_len(&self) -> int {
        self.by_frn->Dense_0@.len() as int
    }

    /// Record numbers are found by hashing.
    pub closed spec fn sparse(&self) -> bool {
        self.by_frn is Sparse
    }

    /// There are no more record numbers than entries.
    proof fn lemma_record_count(&self)
        requires
            self.wf(),
        ensures
            self.chains@.dom().len() <= NIL,
    {
        let chains = self.chains@;
        let e = self.entries.slots();
        let n = e.len() as int;
        let whole = vstd::set_lib::set_int_range(0, n);
        let f = |i: int| crate::types::record_of(e[i].frn.0);
        vstd::set_lib::lemma_int_range(0, n);
        vstd::set_lib::lemma_map_size_bound(whole, whole.map(f), f);
        assert(chains.dom().subset_of(whole.map(f))) by {
            assert forall|r: u64| chains.dom().contains(r) implies whole.map(f).contains(r) by {
                assert(volume::chain_ok(e, self.lost_found, r, chains[r]));
                let i = chains[r][0];
                assert(whole.contains(i as int) && f(i as int) == r);
            }
        }
        vstd::set_lib::lemma_len_subset(chains.dom(), whole.map(f));
    }

    /// Gives back spare memory.
    pub fn shrink_to_fit(&mut self)
        requires
            old(self).wf(),
        ensures
            final(self).wf(),
            final(self).model() == old(self).model(),
            final(self).ids() == old(self).ids(),
            final(self).raw_len() == old(self).raw_len(),
            final(self).folded_len() == old(self).folded_len(),
            final(self).garbage() == old(self).garbage(),
            final(self).known() == old(self).known(),
            final(self).dir_lists() == old(self).dir_lists(),
            final(self).sparse() == old(self).sparse(),
            !old(self).sparse() ==> final(self).table_len() == old(self).table_len(),
    {
        self.entries.shrink_with_headroom();
        self.names.shrink_with_headroom();
        self.dirs.shrink_to_fit();
        self.by_frn.shrink_to_fit();
        proof {
            assert(self.model().slots =~= old(self).model().slots);
        }
    }

    /// Finds record numbers by a table where that takes less memory, and gives
    /// back spare memory. A table is for machines that can address every
    /// record number.
    pub fn optimize_storage(&mut self)
        requires
            old(self).wf(),
        ensures
            final(self).wf(),
            final(self).model() == old(self).model(),
            final(self).ids() == old(self).ids(),
            final(self).raw_len() == old(self).raw_len(),
            final(self).folded_len() == old(self).folded_len(),
            final(self).garbage() == old(self).garbage(),
            final(self).known() == old(self).known(),
            final(self).dir_lists() == old(self).dir_lists(),
            !old(self).sparse() ==> !final(self).sparse() && final(self).table_len() == old(self).table_len(),
            old(self).sparse() ==> forall|max: u64| #[trigger]
                frn_map::is_greatest(old(self).model().chains.dom(), max) ==> {
                    &&& usize::MAX >= 0x1_0000_0000_0000 && max < usize::MAX
                        && frn_map::table_wins(max, old(self).model().chains.dom().len())
                        ==> !final(self).sparse()
                    &&& !final(self).sparse() ==> final(self).table_len() == max + 1
                },
    {
        if usize::MAX as u64 >= 0x1_0000_0000_0000 {
            self.by_frn.densify_if_smaller();
        }
        proof {
            assert(self.model().slots =~= old(self).model().slots);
        }
        self.shrink_to_fit();
    }
}

} // verus!
