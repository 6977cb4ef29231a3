//! The index of one volume.
//!
//! A file is known by its file reference number. Each of its hard links is an
//! entry, and the entries of one file form a chain. A directory that is named
//! as a parent before it is seen gets a placeholder, which keeps its children.

use crate::fold;
use crate::index::dirs;
use crate::index::dirs::DirIndex;
use crate::index::frn_map::FrnMap;
use crate::index::graph;
use crate::index::graph::Order;
use crate::index::model;
use crate::index::model::{Ent, IndexStats, Volume};
use crate::index::names;
use crate::index::names::{NameModel, NameStore};
use crate::index::standins;
use crate::index::store;
use crate::index::store::{EntryFlags, EntryTable, Slot, MTIME_UNKNOWN, SIZE_UNKNOWN};
use crate::types;
use crate::types::{EntryIdx, Frn, NIL};
use vstd::prelude::*;

pub mod apply;
pub mod guard;
pub mod links;
pub mod ops;
pub mod paths;
pub mod read;
pub mod upkeep;
pub mod walk;

verus! {

/// The file reference number of the root directory of an NTFS volume.
pub const NTFS_ROOT_FRN: u64 = 0x0005_0000_0000_0005;

/// The file reference number of the lost and found directory, which no file
/// of a volume has.
pub const LOST_FOUND_FRN: u64 = 0xFFFF_FFFF_FFFF_FFFF;

/// The link that a slot holds.
pub open spec fn ent_of(s: Slot, m: NameModel) -> Option<Ent> {
    if s.live() {
        Some(
            Ent {
                frn: s.frn,
                parent: s.parent,
                name: m.bytes[s.name_id as int],
                lossy: s.flags.has(EntryFlags::NON_UNICODE_NAME),
                dir: s.flags.has(EntryFlags::DIR),
                placeholder: s.flags.has(EntryFlags::PLACEHOLDER),
                size: s.size,
                mtime: s.mtime,
            },
        )
    } else {
        None
    }
}

pub open spec fn ents(e: Seq<Slot>, m: NameModel) -> Seq<Option<Ent>> {
    Seq::new(e.len(), |i: int| ent_of(e[i], m))
}

/// A directory that is found by its name.
pub open spec fn indexed(e: Seq<Slot>, root: EntryIdx, lost_found: EntryIdx, i: int) -> bool {
    &&& 0 <= i < e.len()
    &&& e[i].live()
    &&& e[i].flags.has(EntryFlags::DIR)
    &&& !e[i].flags.has(EntryFlags::PLACEHOLDER)
    &&& i != root
    &&& i != lost_found
}

/// The key under which a directory is found.
pub open spec fn key_of(e: Seq<Slot>, m: NameModel, i: int) -> (EntryIdx, u64) {
    (e[i].parent, names::fx_hash(fold::folded(m.bytes[e[i].name_id as int]), usize::BITS))
}

/// The directories other than `x` are listed under their keys.
pub open spec fn dirs_ok(
    e: Seq<Slot>,
    m: NameModel,
    lists: Map<(EntryIdx, u64), Seq<EntryIdx>>,
    root: EntryIdx,
    lost_found: EntryIdx,
    x: int,
) -> bool {
    &&& dirs::tidy(lists)
    &&& forall|key: (EntryIdx, u64), i: EntryIdx| #[trigger]
        dirs::listed(lists, key, i) <==> i != x && indexed(e, root, lost_found, i as int) && key
            == key_of(e, m, i as int)
}

/// Every parent is the number of a slot.
pub open spec fn parents_ok(e: Seq<Slot>) -> bool {
    forall|i: int|
        0 <= i < e.len() ==> (#[trigger] e[i]).parent == NIL || e[i].parent < e.len()
}

/// The entries of the file with record number `r`.
pub open spec fn chain_ok(e: Seq<Slot>, lost_found: EntryIdx, r: u64, c: Seq<EntryIdx>) -> bool {
    &&& c.len() > 0
    &&& c.no_duplicates()
    &&& forall|k: int|
        #![trigger c[k]]
        0 <= k < c.len() ==> {
            &&& c[k] < e.len()
            &&& c[k] != lost_found
            &&& e[c[k] as int].live()
            &&& types::record_of(e[c[k] as int].frn.0) == r
            &&& e[c[k] as int].next_link == (if k + 1 < c.len() {
                c[k + 1]
            } else {
                NIL
            })
        }
}

pub open spec fn chains_ok(
    e: Seq<Slot>,
    lost_found: EntryIdx,
    chains: Map<u64, Seq<EntryIdx>>,
) -> bool {
    forall|r: u64| #[trigger] chains.dom().contains(r) ==> chain_ok(e, lost_found, r, chains[r])
}

/// Each record number leads to the first entry of its file.
pub open spec fn heads_ok(map: Map<u64, EntryIdx>, chains: Map<u64, Seq<EntryIdx>>) -> bool {
    &&& map.dom() == chains.dom()
    &&& forall|r: u64| #[trigger] map.dom().contains(r) ==> map[r] == chains[r][0]
}

/// The entry is in no chain.
pub open spec fn unchained(chains: Map<u64, Seq<EntryIdx>>, i: EntryIdx) -> bool {
    forall|r: u64| #[trigger] chains.dom().contains(r) ==> !chains[r].contains(i)
}

/// The index of one volume.
pub struct VolumeIndex {
    entries: EntryTable,
    names: NameStore,
    by_frn: FrnMap,
    root: EntryIdx,
    lost_found: EntryIdx,
    live_placeholders: u64,
    generation: u64,
    stats: IndexStats,
    dirty: u64,
    dirs: DirIndex,
    chains: Ghost<Map<u64, Seq<EntryIdx>>>,
    same: Ghost<Order>,
    kids: Ghost<Order>,
}

proof fn lemma_interned(
    e: Seq<Slot>,
    m: NameModel,
    m2: NameModel,
    o: Order,
    x: int,
    id: int,
    name: Seq<u8>,
)
    requires
        graph::names_ok(e, m, o, x, -1),
        m.bytes.len() == m.refs.len(),
        forall|i: int| 0 <= i < m.refs.len() ==> (#[trigger] m.refs[i]) < u32::MAX,
        e.len() <= NIL,
        if m.is(id, name) {
            m2 == (NameModel { refs: m.refs.update(id, (m.refs[id] + 1) as u32), ..m })
        } else {
            &&& id == m.refs.len()
            &&& m2 == (NameModel {
                bytes: m.bytes.push(name),
                refs: m.refs.push(1),
                heads: m.heads.push(NIL),
            })
        },
    ensures
        graph::names_ok(e, m2, o, x, id),
        m2.bytes[id] == name,
        forall|k: int| 0 <= k < m.bytes.len() ==> m2.bytes[k] == #[trigger] m.bytes[k],
{
    assert forall|i: int| graph::there(e, x, i) implies #[trigger] graph::same_node(
        e,
        m2.heads,
        o,
        x,
        i,
    ) by {
        assert(graph::same_node(e, m.heads, o, x, i));
    }
    assert forall|k: int| 0 <= k < m2.heads.len() implies #[trigger] graph::head_node(
        e,
        m2.heads,
        x,
        k,
    ) by {
        if k < m.heads.len() {
            assert(graph::head_node(e, m.heads, x, k));
        }
    }
    assert forall|k: int| 0 <= k < m2.refs.len() implies #[trigger] m2.refs[k] == graph::users(
        e,
        k,
        x,
        e.len() as int,
    ) + if k == id {
        1int
    } else {
        0
    } by {
        if k < m.refs.len() {
            assert(m.refs[k] < u32::MAX);
        } else {
            lemma_no_users(e, m, o, x, k);
        }
    }
}

proof fn lemma_no_users(e: Seq<Slot>, m: NameModel, o: Order, x: int, id: int)
    requires
        graph::names_ok(e, m, o, x, -1),
        id >= m.refs.len(),
    ensures
        graph::users(e, id, x, e.len() as int) == 0,
{
    assert forall|i: int| graph::there(e, x, i) implies e[i].name_id != id by {
        assert(graph::same_node(e, m.heads, o, x, i));
    }
    lemma_users_none(e, id, x, e.len() as int);
}

proof fn lemma_users_none(e: Seq<Slot>, id: int, x: int, k: int)
    requires
        forall|i: int| #[trigger] graph::there(e, x, i) ==> e[i].name_id != id,
    ensures
        graph::users(e, id, x, k) == 0,
    decreases k,
{
    if k > 0 {
        lemma_users_none(e, id, x, k - 1);
        assert(graph::there(e, x, k - 1) ==> e[k - 1].name_id != id);
    }
}

proof fn lemma_released(e: Seq<Slot>, m: NameModel, m2: NameModel, o: Order, x: int, id: int)
    requires
        graph::names_ok(e, m, o, x, id),
        0 <= id,
        m.used(id),
        m2.heads == m.heads,
        m2.refs == m.refs.update(id, (m.refs[id] - 1) as u32),
    ensures
        graph::names_ok(e, m2, o, x, -1),
{
    assert forall|i: int| graph::there(e, x, i) implies #[trigger] graph::same_node(
        e,
        m2.heads,
        o,
        x,
        i,
    ) by {
        assert(graph::same_node(e, m.heads, o, x, i));
    }
    assert forall|k: int| 0 <= k < m2.heads.len() implies #[trigger] graph::head_node(
        e,
        m2.heads,
        x,
        k,
    ) by {
        assert(graph::head_node(e, m.heads, x, k));
    }
    assert forall|k: int| 0 <= k < m2.refs.len() implies #[trigger] m2.refs[k] == graph::users(
        e,
        k,
        x,
        e.len() as int,
    ) + 0int by {
        assert(m.refs[k] == graph::users(e, k, x, e.len() as int) + if k == id {
            1int
        } else {
            0
        });
    }
}

/// What the directories are found by depends only on them.
pub proof fn lemma_dirs_to(
    a: Seq<Slot>,
    ma: NameModel,
    xa: int,
    b: Seq<Slot>,
    mb: NameModel,
    xb: int,
    lists: Map<(EntryIdx, u64), Seq<EntryIdx>>,
    root: EntryIdx,
    lost_found: EntryIdx,
)
    requires
        dirs_ok(a, ma, lists, root, lost_found, xa),
        b.len() <= NIL,
        forall|i: int| #[trigger]
            indexed(b, root, lost_found, i) && i != xb <==> indexed(a, root, lost_found, i) && i
                != xa,
        forall|i: int| #[trigger]
            indexed(b, root, lost_found, i) && i != xb ==> key_of(b, mb, i) == key_of(a, ma, i),
    ensures
        dirs_ok(b, mb, lists, root, lost_found, xb),
{
    assert forall|key: (EntryIdx, u64), i: EntryIdx| #[trigger]
        dirs::listed(lists, key, i) <==> i != xb && indexed(b, root, lost_found, i as int) && key
            == key_of(b, mb, i as int) by {
        assert(indexed(b, root, lost_found, i as int) && i != xb <==> indexed(
            a,
            root,
            lost_found,
            i as int,
        ) && i != xa);
    }
}

proof fn lemma_refs_small(e: Seq<Slot>, m: NameModel, o: Order, x: int)
    requires
        graph::names_ok(e, m, o, x, -1),
        e.len() < NIL,
    ensures
        forall|i: int| 0 <= i < m.refs.len() ==> (#[trigger] m.refs[i]) < u32::MAX,
{
    assert forall|i: int| 0 <= i < m.refs.len() implies (#[trigger] m.refs[i]) < u32::MAX by {
        graph::lemma_users_bound(e, i, x, e.len() as int);
    }
}

/// Flags of a new entry.
fn entry_flags(is_dir: bool, lossy: bool, placeholder: bool) -> (f: EntryFlags)
    ensures
        f.has(EntryFlags::DIR) == is_dir,
        f.has(EntryFlags::NON_UNICODE_NAME) == lossy,
        f.has(EntryFlags::PLACEHOLDER) == placeholder,
        !f.has(EntryFlags::TOMBSTONE),
        !f.has(EntryFlags::LOST_FOUND),
        !f.has(EntryFlags::CHAIN_DETACHED),
{
    let f0 = EntryFlags::empty();
    let f1 = f0.with(EntryFlags::DIR, is_dir);
    let f2 = f1.with(EntryFlags::NON_UNICODE_NAME, lossy);
    let f3 = f2.with(EntryFlags::PLACEHOLDER, placeholder);
    proof {
        store::lemma_no_flag(f0);
        store::lemma_one_flag(f0, f1, EntryFlags::DIR, is_dir);
        store::lemma_one_flag(f1, f2, EntryFlags::NON_UNICODE_NAME, lossy);
        store::lemma_one_flag(f2, f3, EntryFlags::PLACEHOLDER, placeholder);
    }
    f3
}

impl VolumeIndex {
    /// What the index holds.
    pub closed spec fn model(&self) -> Volume {
        Volume {
            slots: ents(self.entries.slots(), self.names.model()),
            free: self.entries.free(),
            chains: self.chains@,
            detached: graph::cut_off(self.entries.slots()),
            root: self.root,
            lost_found: self.lost_found,
            placeholders: self.live_placeholders as int,
            generation: self.generation as int,
            stats: self.stats.model(),
            dirty: self.dirty as int,
        }
    }

    /// The parts fit together. Entry `dx` is not found by name, `nx` is in no
    /// chain of its name, `kx` in no chain of children, and `pend` is a name
    /// that is counted once more.
    closed spec fn sound(&self, dx: int, nx: int, pend: int, kx: int) -> bool {
        let e = self.entries.slots();
        let m = self.names.model();
        &&& self.entries.wf()
        &&& self.names.wf()
        &&& self.by_frn.wf()
        &&& self.by_frn is Dense ==> usize::MAX >= 0x1_0000_0000_0000
        &&& e.len() < NIL
        &&& graph::names_ok(e, m, self.same@, nx, pend)
        &&& graph::kids_ok(e, self.kids@, kx)
        &&& graph::exact(e, kx)
        &&& dirs_ok(e, m, self.dirs.lists(), self.root, self.lost_found, dx)
        &&& parents_ok(e)
        &&& self.root < e.len()
        &&& self.lost_found < e.len()
        &&& e[self.lost_found as int].live()
        &&& e[self.lost_found as int].parent == NIL
        &&& e[self.lost_found as int].flags.has(EntryFlags::DIR)
        &&& !graph::cut(e[self.lost_found as int])
        &&& forall|i: int|
            0 <= i < e.len() && (#[trigger] e[i]).live() ==> (e[i].flags.has(EntryFlags::LOST_FOUND)
                <==> i == self.lost_found)
        &&& chains_ok(e, self.lost_found, self.chains@)
    }

    pub closed spec fn wf(&self) -> bool {
        &&& self.sound(-1, -1, -1, -1)
        &&& heads_ok(self.by_frn.map(), self.chains@)
        &&& self.model().surplus() >= 0
    }

    /// How many names there are, with those that are no longer in use.
    pub closed spec fn ids(&self) -> int {
        self.names.model().refs.len() as int
    }

    /// Bytes that the names take as they are written.
    pub closed spec fn raw_len(&self) -> int {
        self.names.raw_len()
    }

    /// Bytes that the folded names take.
    pub closed spec fn folded_len(&self) -> int {
        self.names.haystack().len() as int
    }

    /// Enough of the names is no longer in use: a quarter of their bytes,
    /// where they take more than 8 KB.
    pub open spec fn wants_compact(&self) -> bool {
        self.raw_len() + self.folded_len() > 8192 && self.garbage() * 4 > self.raw_len()
            + self.folded_len()
    }

    /// Bytes of names that are no longer in use.
    pub closed spec fn garbage(&self) -> int {
        self.names.garbage()
    }

    /// Finds a directory by its name from now on.
    fn dir_index_insert(&mut self, idx: EntryIdx)
        requires
            old(self).sound(idx as int, -1, -1, -1),
            idx < old(self).entries.slots().len(),
            old(self).entries.slots()[idx as int].live(),
        ensures
            final(self).sound(-1, -1, -1, -1),
            final(self).same_but_dirs(*old(self)),
    {
        let ghost e = self.entries.slots();
        let ghost m = self.names.model();
        let flags = self.entries.flags(idx);
        if !flags.contains(EntryFlags::DIR) || flags.contains(EntryFlags::PLACEHOLDER) || idx
            == self.root || idx == self.lost_found {
            proof {
                lemma_dirs_to(
                    e,
                    m,
                    idx as int,
                    e,
                    m,
                    -1,
                    self.dirs.lists(),
                    self.root,
                    self.lost_found,
                );
            }
            return ;
        }
        let ghost before = self.dirs.lists();
        let id = self.entries.name_id(idx);
        proof {
            assert(graph::there(e, -1, idx as int));
            graph::lemma_name_used(e, m, self.same@, -1, -1);
            self.names.lemma_wf();
        }
        let hash = names::hash_bytes(self.names.folded_bytes_of(id));
        let key = (self.entries.parent(idx), hash);
        self.dirs.insert(key, idx);
        proof {
            assert(key == key_of(e, m, idx as int));
            assert forall|k: (EntryIdx, u64), i: EntryIdx| #[trigger]
                dirs::listed(self.dirs.lists(), k, i) <==> i != -1 && indexed(
                    e,
                    self.root,
                    self.lost_found,
                    i as int,
                ) && k == key_of(e, m, i as int) by {
                assert(dirs::listed(before, k, i) <==> i != idx && indexed(
                    e,
                    self.root,
                    self.lost_found,
                    i as int,
                ) && k == key_of(e, m, i as int));
            }
        }
    }

    /// Finds a directory by its name no longer.
    fn dir_index_remove(&mut self, idx: EntryIdx)
        requires
            old(self).sound(-1, -1, -1, -1),
            idx < old(self).entries.slots().len(),
            old(self).entries.slots()[idx as int].live(),
        ensures
            final(self).sound(idx as int, -1, -1, -1),
            final(self).same_but_dirs(*old(self)),
    {
        let ghost e = self.entries.slots();
        let ghost m = self.names.model();
        if !self.entries.flags(idx).contains(EntryFlags::DIR) {
            proof {
                lemma_dirs_to(
                    e,
                    m,
                    -1,
                    e,
                    m,
                    idx as int,
                    self.dirs.lists(),
                    self.root,
                    self.lost_found,
                );
            }
            return ;
        }
        let ghost before = self.dirs.lists();
        let id = self.entries.name_id(idx);
        proof {
            assert(graph::there(e, -1, idx as int));
            graph::lemma_name_used(e, m, self.same@, -1, -1);
            self.names.lemma_wf();
        }
        let hash = names::hash_bytes(self.names.folded_bytes_of(id));
        let key = (self.entries.parent(idx), hash);
        self.dirs.remove(key, idx);
        proof {
            assert(key == key_of(e, m, idx as int));
            assert forall|k: (EntryIdx, u64), i: EntryIdx| #[trigger]
                dirs::listed(self.dirs.lists(), k, i) <==> i != idx && indexed(
                    e,
                    self.root,
                    self.lost_found,
                    i as int,
                ) && k == key_of(e, m, i as int) by {
                assert(dirs::listed(before, k, i) <==> i != -1 && indexed(
                    e,
                    self.root,
                    self.lost_found,
                    i as int,
                ) && k == key_of(e, m, i as int));
            }
        }
    }

    /// Only what directories are found by differs.
    closed spec fn same_but_dirs(&self, before: VolumeIndex) -> bool {
        *self == (VolumeIndex { dirs: self.dirs, ..before })
    }
    /// An index that holds the root directory and the lost and found
    /// directory. The map is empty; a table is for machines that can address
    /// every record number.
    #[verifier::rlimit(60)]
    pub fn new(root_frn: Frn, frn_map: FrnMap) -> (index: VolumeIndex)
        requires
            frn_map.wf(),
            frn_map.map().dom() == Set::<u64>::empty(),
            frn_map is Dense ==> usize::MAX >= 0x1_0000_0000_0000,
        ensures
            index.wf(),
            index.model() == model::new_volume(root_frn),
            index.ids() == 2,
            index.raw_len() <= 12,
            index.folded_len() == 12,
    {
        let mut by_frn = frn_map;
        let mut entries = EntryTable::new();
        let mut names = NameStore::new();
        let ghost o = Order { rank: Map::empty(), clock: 0 };
        let ghost e0 = entries.slots();
        let ghost m0 = names.model();
        let empty: [u8; 0] = [];
        let lost: [u8; 10] = [
            0x24u8,
            0x4cu8,
            0x6fu8,
            0x73u8,
            0x74u8,
            0x46u8,
            0x6fu8,
            0x75u8,
            0x6eu8,
            0x64u8,
        ];
        let ghost root_name = empty@;
        proof {
            assert(empty@ =~= Seq::<u8>::empty());
            assert(lost@ =~= model::lost_found_name());
            assert(fold::is_ascii_bytes(empty@));
            assert(fold::is_ascii_bytes(lost@));
            names.lemma_wf();
            assert forall|name: Seq<u8>| !#[trigger] names.knows(name) by {}
        }
        let root_id = names.intern(empty.as_slice());
        let ghost m1 = names.model();
        proof {
            lemma_interned(e0, m0, m1, o, -1, root_id as int, empty@);
            names.lemma_wf();
        }
        let flags = entry_flags(true, false, false);
        let root = entries.insert(
            root_frn,
            NIL,
            root_id,
            flags,
            SIZE_UNKNOWN,
            MTIME_UNKNOWN,
            NIL,
        );
        let ghost e1 = entries.slots();
        proof {
            assert forall|i: int| #[trigger] graph::there(e1, 0, i) <==> graph::there(
                e0,
                -1,
                i,
            ) by {}
            graph::lemma_names_to(e0, -1, e1, 0, m1, o, root_id as int);
        }
        graph::link_same(&mut entries, &mut names, root, root_id, Ghost(o));
        let ghost o1 = o.with_first(0);
        let ghost e2 = entries.slots();
        let ghost m2 = names.model();
        proof {
            names.lemma_wf();
            lemma_refs_small(e2, m2, o1, -1);
            assert(!m2.is(0, lost@)) by {
                assert(m2.bytes[0] == empty@);
                assert(lost@.len() == 10);
            }
            assert forall|id: int| !(#[trigger] m2.is(id, lost@)) by {}
            assert(!names.knows(lost@));
        }
        let lost_id = names.intern(lost.as_slice());
        let ghost m3 = names.model();
        proof {
            lemma_interned(e2, m2, m3, o1, -1, lost_id as int, lost@);
            names.lemma_wf();
        }
        let lost_flags = flags.with(EntryFlags::LOST_FOUND, true);
        proof {
            store::lemma_one_flag(flags, lost_flags, EntryFlags::LOST_FOUND, true);
        }
        let lost_found = entries.insert(
            Frn(LOST_FOUND_FRN),
            NIL,
            lost_id,
            lost_flags,
            SIZE_UNKNOWN,
            MTIME_UNKNOWN,
            NIL,
        );
        let ghost e3 = entries.slots();
        proof {
            assert forall|i: int| #[trigger] graph::there(e3, 1, i) <==> graph::there(
                e2,
                -1,
                i,
            ) by {}
            graph::lemma_names_to(e2, -1, e3, 1, m3, o1, lost_id as int);
        }
        graph::link_same(&mut entries, &mut names, lost_found, lost_id, Ghost(o1));
        let record = root_frn.record_number();
        by_frn.set(record, root);
        let index = VolumeIndex {
            entries,
            names,
            by_frn,
            root,
            lost_found,
            live_placeholders: 0,
            generation: 0,
            stats: IndexStats {
                placeholders_created: 0,
                delete_of_unknown: 0,
                rename_old_seen: 0,
                stale_slots: 0,
                link_reconciles_dropped: 0,
            },
            dirty: 0,
            dirs: DirIndex::new(),
            chains: Ghost(Map::empty().insert(record, seq![root])),
            same: Ghost(o1.with_first(1)),
            kids: Ghost(o),
        };
        proof {
            let e = index.entries.slots();
            let m = index.names.model();
            assert(e2[0] == (Slot {
                next_same: e2[0].next_same,
                prev_same: e2[0].prev_same,
                ..e1[0]
            }));
            assert(e[0] == (Slot { next_same: e[0].next_same, prev_same: e[0].prev_same, ..e3[0] }));
            assert(e[1] == (Slot { next_same: e[1].next_same, prev_same: e[1].prev_same, ..e3[1] }));
            assert forall|i: int| !#[trigger] graph::kid(e, -1, i) by {}
            assert(graph::kids_ok(e, o, -1));
            assert(m.bytes[0] == empty@);
            assert(m.bytes[1] == lost@);
            assert(dirs_ok(e, m, index.dirs.lists(), root, lost_found, -1)) by {
                assert forall|key: (EntryIdx, u64), i: EntryIdx| #[trigger]
                    dirs::listed(index.dirs.lists(), key, i) <==> i != -1 && indexed(
                        e,
                        root,
                        lost_found,
                        i as int,
                    ) && key == key_of(e, m, i as int) by {}
            }
            let c = seq![root];
            assert(chain_ok(e, lost_found, record, c)) by {
                assert(c.no_duplicates());
            }
            assert(chains_ok(e, lost_found, index.chains@));
            assert(heads_ok(index.by_frn.map(), index.chains@)) by {
                assert(index.by_frn.map().dom() =~= index.chains@.dom());
            }
            assert(index.model().slots =~= model::new_volume(root_frn).slots);
            assert(index.model().free =~= model::new_volume(root_frn).free);
            assert(index.model().detached =~= model::new_volume(root_frn).detached);
            assert(index.model().chains =~= model::new_volume(root_frn).chains);
            standins::lemma_none(index.model().slots);
        }
        index
    }

    /// The name is there already, or there is room for it.
    closed spec fn name_fits(&self, name: Seq<u8>) -> bool {
        self.names.knows(name) || self.names.room(name)
    }

    /// Makes an entry.
    #[verifier::rlimit(60)]
    fn create(
        &mut self,
        frn: Frn,
        parent: EntryIdx,
        name: &[u8],
        lossy: bool,
        is_dir: bool,
        placeholder: bool,
    ) -> (idx: EntryIdx)
        requires
            old(self).sound(-1, -1, -1, -1),
            parent == NIL || parent < old(self).entries.slots().len(),
            old(self).name_fits(name@),
            old(self).entries.slots().len() + 1 < NIL,
        ensures
            final(self).sound(-1, -1, -1, -1),
            idx == old(self).model().next_slot(),
            idx < final(self).entries.slots().len(),
            final(self).model() == old(self).model().created(
                model::new_ent(frn, parent, name@, lossy, is_dir, placeholder),
            ),
            final(self).by_frn == old(self).by_frn,
            final(self).entries.slots()[idx as int].next_link == NIL,
            forall|i: int|
                0 <= i < old(self).entries.slots().len() && i != idx ==> (
                #[trigger] final(self).entries.slots()[i]).next_link
                    == old(self).entries.slots()[i].next_link,
            unchained(final(self).chains@, idx),
            final(self).ids() <= old(self).ids() + 1,
            final(self).raw_len() <= old(self).raw_len() + name@.len() + 1,
            final(self).folded_len() <= old(self).folded_len() + fold::folded(name@).len() + 1,
    {
        let ghost a = self.entries.slots();
        let ghost m = self.names.model();
        let ghost lists = self.dirs.lists();
        proof {
            self.names.lemma_wf();
            self.entries.lemma_wf();
            lemma_refs_small(a, m, self.same@, -1);
            graph::lemma_name_used(a, m, self.same@, -1, -1);
        }
        let flags = entry_flags(is_dir, lossy, placeholder);
        let id = self.names.intern(name);
        let ghost m1 = self.names.model();
        proof {
            lemma_interned(a, m, m1, self.same@, -1, id as int, name@);
        }
        let idx = self.entries.insert(frn, parent, id, flags, SIZE_UNKNOWN, MTIME_UNKNOWN, NIL);
        let ghost x = idx as int;
        let ghost e1 = self.entries.slots();
        proof {
            assert(x < a.len() ==> !a[x].live());
            assert(forall|i: int| 0 <= i < a.len() && i != x ==> e1[i] == a[i]);
            assert forall|i: int| #[trigger] graph::there(e1, x, i) <==> graph::there(a, -1, i) by {}
            graph::lemma_names_to(a, -1, e1, x, m1, self.same@, id as int);
            assert forall|i: int| #[trigger] graph::kid(e1, x, i) <==> graph::kid(a, -1, i) by {}
            graph::lemma_kids_to(a, -1, e1, x, self.kids@);
            if graph::exact(a, -1) {
                assert forall|i: int| graph::kid(e1, x, i) implies #[trigger] graph::exact_node(
                    e1,
                    i,
                ) by {
                    assert(graph::kid(a, -1, i));
                    assert(graph::exact_node(a, i));
                }
            }
        }
        graph::link_same(&mut self.entries, &mut self.names, idx, id, Ghost(self.same@));
        let ghost e2 = self.entries.slots();
        let ghost m2 = self.names.model();
        proof {
            self.same@ = self.same@.with_first(x);
            assert forall|i: int| #[trigger] graph::kid(e2, x, i) <==> graph::kid(e1, x, i) by {}
            graph::lemma_kids_to(e1, x, e2, x, self.kids@);
            if graph::exact(e1, x) {
                assert forall|i: int| graph::kid(e2, x, i) implies #[trigger] graph::exact_node(
                    e2,
                    i,
                ) by {
                    assert(graph::kid(e1, x, i));
                    assert(graph::exact_node(e1, i));
                }
            }
        }
        graph::link_child(&mut self.entries, idx, Ghost(self.kids@));
        let ghost e3 = self.entries.slots();
        proof {
            self.kids@ = self.kids@.with_first(x);
            assert forall|i: int| #[trigger] graph::there(e3, -1, i) <==> graph::there(
                e2,
                -1,
                i,
            ) by {
                if 0 <= i < e3.len() {
                    assert(graph::same_flags(e2[i].flags, e3[i].flags));
                }
            }
            graph::lemma_names_to(e2, -1, e3, -1, m2, self.same@, -1);
            assert forall|i: int| 0 <= i < e3.len() && i != x implies #[trigger] e3[i].frn
                == a[i].frn && e3[i].parent == a[i].parent && e3[i].name_id == a[i].name_id
                && e3[i].size == a[i].size && e3[i].mtime == a[i].mtime && e3[i].next_link
                == a[i].next_link && graph::same_flags(a[i].flags, e3[i].flags) by {
                assert(e1[i] == a[i]);
                assert(e2[i].flags == e1[i].flags);
                assert(graph::same_flags(e2[i].flags, e3[i].flags));
            }
            assert(e3[x].frn == frn && e3[x].parent == parent && e3[x].name_id == id && e3[x].size
                == SIZE_UNKNOWN && e3[x].mtime == MTIME_UNKNOWN && e3[x].next_link == NIL
                && graph::same_flags(flags, e3[x].flags)) by {
                assert(e2[x].flags == e1[x].flags);
                assert(graph::same_flags(e2[x].flags, e3[x].flags));
            }
            assert forall|i: int|
                0 <= i < a.len() && i != x && a[i].live() implies #[trigger] m2.bytes[a[i].name_id as int]
                == m.bytes[a[i].name_id as int] by {
                assert(graph::there(a, -1, i));
            }
            assert forall|i: int| #[trigger]
                indexed(e3, self.root, self.lost_found, i) && i != x <==> indexed(
                    a,
                    self.root,
                    self.lost_found,
                    i,
                ) && i != -1 by {}
            lemma_dirs_to(a, m, -1, e3, m2, x, lists, self.root, self.lost_found);
            assert(chains_ok(e3, self.lost_found, self.chains@)) by {
                assert forall|r: u64| #[trigger] self.chains@.dom().contains(r) implies chain_ok(
                    e3,
                    self.lost_found,
                    r,
                    self.chains@[r],
                ) by {
                    let c = self.chains@[r];
                    assert(chain_ok(a, self.lost_found, r, c));
                    assert forall|k: int| #![trigger c[k]] 0 <= k < c.len() implies c[k] != x by {}
                }
            }
        }
        self.dir_index_insert(idx);
        proof {
            assert(self.model().slots =~= old(self).model().created(
                model::new_ent(frn, parent, name@, lossy, is_dir, placeholder),
            ).slots) by {
                assert forall|i: int| 0 <= i < e3.len() implies self.model().slots[i] == old(
                    self,
                ).model().created(
                    model::new_ent(frn, parent, name@, lossy, is_dir, placeholder),
                ).slots[i] by {
                    if i != x {
                        assert(e3[i].frn == a[i].frn);
                    }
                }
            }
            let want = old(self).model().created(
                model::new_ent(frn, parent, name@, lossy, is_dir, placeholder),
            );
            assert(self.model().detached =~= want.detached) by {
                assert forall|i: EntryIdx| self.model().detached.contains(i)
                    <==> want.detached.contains(i) by {
                    if i != x && i < e3.len() {
                        assert(e3[i as int].flags == e2[i as int].flags);
                        assert(e2[i as int].flags == e1[i as int].flags);
                        assert(e1[i as int] == a[i as int]);
                    }
                    if parent != NIL && parent != x {
                        assert(e2[parent as int].flags == e1[parent as int].flags);
                        assert(e1[parent as int] == a[parent as int]);
                    }
                }
            }
            assert(unchained(self.chains@, idx)) by {
                assert forall|r: u64| #[trigger] self.chains@.dom().contains(r) implies !self.chains@[r].contains(
                    idx,
                ) by {
                    let c = self.chains@[r];
                    assert(chain_ok(a, self.lost_found, r, c));
                    if c.contains(idx) {
                        let k = choose|k: int| 0 <= k < c.len() && c[k] == idx;
                        assert(a[c[k] as int].live());
                    }
                }
            }
        }
        idx
    }
    /// Ends an entry. Its slot is free from now on, and its children are in
    /// the chain of no directory.
    #[verifier::rlimit(60)]
    fn kill(&mut self, idx: EntryIdx)
        requires
            old(self).sound(-1, -1, -1, -1),
            idx < old(self).entries.slots().len(),
            old(self).entries.slots()[idx as int].live(),
            idx != old(self).lost_found,
            unchained(old(self).chains@, idx),
        ensures
            final(self).sound(-1, -1, -1, -1),
            final(self).model() == old(self).model().killed(idx),
            final(self).by_frn == old(self).by_frn,
            forall|i: int|
                0 <= i < old(self).entries.slots().len() && i != idx ==> (
                #[trigger] final(self).entries.slots()[i]).next_link
                    == old(self).entries.slots()[i].next_link,
            final(self).ids() == old(self).ids(),
            final(self).raw_len() == old(self).raw_len(),
            final(self).folded_len() == old(self).folded_len(),
    {
        let ghost x = idx as int;
        let ghost a = self.entries.slots();
        let ghost m = self.names.model();
        proof {
            self.names.lemma_wf();
            self.entries.lemma_wf();
        }
        self.dir_index_remove(idx);
        let ghost lists = self.dirs.lists();
        graph::sever_children(&mut self.entries, idx, Ghost(self.kids@));
        let ghost e1 = self.entries.slots();
        proof {
            lemma_flags_kept(a, e1);
            graph::lemma_names_to(a, -1, e1, -1, m, self.same@, -1);
            if graph::exact(e1, -1) {
                graph::lemma_no_kids(e1, self.kids@, -1, x);
            }
        }
        graph::unlink_same(&mut self.entries, &mut self.names, idx, Ghost(self.same@));
        let ghost e2 = self.entries.slots();
        let ghost m2 = self.names.model();
        let ghost id = a[x].name_id;
        proof {
            assert forall|i: int| #[trigger] graph::kid(e2, -1, i) <==> graph::kid(e1, -1, i) by {}
            graph::lemma_kids_to(e1, -1, e2, -1, self.kids@);
            if graph::exact(e1, -1) {
                assert forall|i: int| graph::kid(e2, -1, i) implies #[trigger] graph::exact_node(
                    e2,
                    i,
                ) by {
                    assert(graph::kid(e1, -1, i));
                    assert(graph::exact_node(e1, i));
                }
            }
        }
        graph::unlink_child(&mut self.entries, idx, Ghost(self.kids@));
        let ghost e3 = self.entries.slots();
        proof {
            lemma_flags_kept(e2, e3);
            assert forall|i: int| #[trigger] graph::there(e3, x, i) <==> graph::there(
                e2,
                x,
                i,
            ) by {
                assert(graph::there(e3, -1, i) <==> graph::there(e2, -1, i));
            }
            graph::lemma_names_to(e2, x, e3, x, m2, self.same@, id as int);
            graph::lemma_name_used(e3, m2, self.same@, x, id as int);
        }
        let name_id = self.entries.name_id(idx);
        self.names.release(name_id);
        let ghost m3 = self.names.model();
        proof {
            lemma_released(e3, m2, m3, self.same@, x, id as int);
        }
        self.entries.tombstone(idx);
        let ghost e4 = self.entries.slots();
        proof {
            assert(forall|i: int| 0 <= i < a.len() && i != x ==> e4[i] == e3[i]);
            assert forall|i: int| #[trigger] graph::there(e4, -1, i) <==> graph::there(
                e3,
                x,
                i,
            ) by {}
            graph::lemma_names_to(e3, x, e4, -1, m3, self.same@, -1);
            assert forall|i: int| #[trigger] graph::kid(e4, -1, i) <==> graph::kid(e3, x, i) by {}
            graph::lemma_kids_to(e3, x, e4, -1, self.kids@);
            if graph::exact(a, -1) {
                assert forall|i: int| graph::kid(e4, -1, i) implies #[trigger] graph::exact_node(
                    e4,
                    i,
                ) by {
                    assert(graph::kid(e3, x, i));
                    assert(graph::exact_node(e3, i));
                    assert(e3[i].flags == e2[i].flags && e3[i].parent == e2[i].parent);
                    assert(graph::kid(e2, -1, i));
                    assert(graph::kid(e1, -1, i));
                }
            }
            graph::lemma_name_used(e4, m3, self.same@, -1, -1);
            assert forall|i: int| 0 <= i < a.len() && i != x implies #[trigger] e4[i].frn
                == a[i].frn && e4[i].parent == a[i].parent && e4[i].name_id == a[i].name_id
                && e4[i].size == a[i].size && e4[i].mtime == a[i].mtime && e4[i].next_link
                == a[i].next_link && graph::same_flags(a[i].flags, e4[i].flags) by {
                assert(graph::same_flags(a[i].flags, e1[i].flags));
                assert(e2[i].flags == e1[i].flags);
                assert(graph::same_flags(e2[i].flags, e3[i].flags));
            }
            assert forall|i: int|
                0 <= i < a.len() && i != x && a[i].live() implies #[trigger] m3.bytes[a[i].name_id as int]
                == m.bytes[a[i].name_id as int] by {
                assert(e4[i].frn == a[i].frn);
                assert(graph::there(e4, -1, i));
            }
            assert forall|i: int| #[trigger]
                indexed(e4, self.root, self.lost_found, i) && i != -1 <==> indexed(
                    a,
                    self.root,
                    self.lost_found,
                    i,
                ) && i != x by {
                if 0 <= i < a.len() && i != x {
                    assert(e4[i].frn == a[i].frn);
                }
            }
            lemma_dirs_to(a, m, x, e4, m3, -1, lists, self.root, self.lost_found);
            assert(chains_ok(e4, self.lost_found, self.chains@)) by {
                assert forall|r: u64| #[trigger] self.chains@.dom().contains(r) implies chain_ok(
                    e4,
                    self.lost_found,
                    r,
                    self.chains@[r],
                ) by {
                    let c = self.chains@[r];
                    assert(chain_ok(a, self.lost_found, r, c));
                    assert forall|k: int| #![trigger c[k]] 0 <= k < c.len() implies c[k] != x
                        && e4[c[k] as int].frn == a[c[k] as int].frn by {
                        assert(c.contains(c[k]));
                    }
                }
            }
            assert(parents_ok(e4)) by {
                assert forall|i: int| 0 <= i < e4.len() implies (#[trigger] e4[i]).parent == NIL
                    || e4[i].parent < e4.len() by {
                    if i != x {
                        assert(e4[i].frn == a[i].frn);
                    } else {
                        assert(e1[i].parent == a[i].parent);
                        assert(e2[i].parent == a[i].parent);
                        assert(e3[i].parent == a[i].parent);
                    }
                }
            }
            assert forall|i: int| 0 <= i < e4.len() && (#[trigger] e4[i]).live() implies (
            e4[i].flags.has(EntryFlags::LOST_FOUND) <==> i == self.lost_found) by {
                assert(e4[i].frn == a[i].frn);
            }
            let lf = self.lost_found as int;
            assert(e4[lf].frn == a[lf].frn);
            let want = old(self).model().killed(idx);
            assert(self.model().detached =~= want.detached) by {
                assert forall|i: EntryIdx| self.model().detached.contains(i)
                    <==> want.detached.contains(i) by {
                    if i != x && i < e4.len() {
                        assert(e4[i as int] == e3[i as int]);
                        assert(e3[i as int].flags == e2[i as int].flags);
                        assert(e2[i as int].flags == e1[i as int].flags);
                        assert(graph::same_flags(a[i as int].flags, e1[i as int].flags));
                    }
                }
            }
            assert(self.model().slots =~= old(self).model().killed(idx).slots) by {
                assert forall|i: int| 0 <= i < e4.len() implies self.model().slots[i] == old(
                    self,
                ).model().killed(idx).slots[i] by {
                    if i != x {
                        assert(e4[i].frn == a[i].frn);
                    }
                }
            }
        }
    }
    /// Gives an entry another parent and name.
    #[verifier::rlimit(80)]
    fn rewrite_entry(
        &mut self,
        idx: EntryIdx,
        parent: EntryIdx,
        name: &[u8],
        lossy: bool,
        is_dir: bool,
    )
        requires
            old(self).sound(-1, -1, -1, -1),
            idx < old(self).entries.slots().len(),
            old(self).entries.slots()[idx as int].live(),
            idx != old(self).lost_found,
            old(self).model().has(parent as int),
            old(self).names.room(name@),
            old(self).dirty < u64::MAX,
        ensures
            final(self).sound(-1, -1, -1, -1),
            final(self).model() == old(self).model().rewritten(idx, parent, name@, lossy, is_dir),
            final(self).by_frn == old(self).by_frn,
            final(self).ids() <= old(self).ids() + 1,
            final(self).raw_len() <= old(self).raw_len() + name@.len() + 1,
            final(self).folded_len() <= old(self).folded_len() + fold::folded(name@).len() + 1,
    {
        let ghost x = idx as int;
        let ghost a = self.entries.slots();
        let ghost m = self.names.model();
        proof {
            self.names.lemma_wf();
            self.entries.lemma_wf();
        }
        self.dir_index_remove(idx);
        let ghost lists = self.dirs.lists();
        let ghost old_id = a[x].name_id;
        graph::unlink_same(&mut self.entries, &mut self.names, idx, Ghost(self.same@));
        let ghost e1 = self.entries.slots();
        let ghost m1 = self.names.model();
        proof {
            graph::lemma_name_used(e1, m1, self.same@, x, old_id as int);
        }
        let name_id = self.entries.name_id(idx);
        self.names.release(name_id);
        let ghost m2 = self.names.model();
        proof {
            lemma_released(e1, m1, m2, self.same@, x, old_id as int);
            lemma_refs_small(e1, m2, self.same@, x);
            self.names.lemma_wf();
            graph::lemma_name_used(e1, m2, self.same@, x, -1);
        }
        let id = self.names.intern(name);
        let ghost m3 = self.names.model();
        proof {
            lemma_interned(e1, m2, m3, self.same@, x, id as int, name@);
        }
        self.entries.set_name_id(idx, id);
        let ghost e2 = self.entries.slots();
        proof {
            assert forall|i: int| #[trigger] graph::there(e2, x, i) <==> graph::there(
                e1,
                x,
                i,
            ) by {}
            graph::lemma_names_to(e1, x, e2, x, m3, self.same@, id as int);
        }
        graph::link_same(&mut self.entries, &mut self.names, idx, id, Ghost(self.same@));
        let ghost e3 = self.entries.slots();
        let ghost m4 = self.names.model();
        proof {
            self.same@ = self.same@.with_first(x);
            assert forall|i: int|
                0 <= i < a.len() implies #[trigger] e3[i] == (Slot {
                name_id: e3[i].name_id,
                next_same: e3[i].next_same,
                prev_same: e3[i].prev_same,
                ..a[i]
            }) && (i != x ==> e3[i].name_id == a[i].name_id) by {
                assert(e1[i].frn == a[i].frn);
                assert(e2[i].frn == a[i].frn);
            }
            assert forall|i: int| #[trigger] graph::kid(e3, -1, i) <==> graph::kid(a, -1, i) by {}
            graph::lemma_kids_to(a, -1, e3, -1, self.kids@);
            if graph::exact(a, -1) {
                assert forall|i: int| graph::kid(e3, -1, i) implies #[trigger] graph::exact_node(
                    e3,
                    i,
                ) by {
                    assert(graph::kid(a, -1, i));
                    assert(graph::exact_node(a, i));
                }
            }
        }
        graph::unlink_child(&mut self.entries, idx, Ghost(self.kids@));
        let ghost e4 = self.entries.slots();
        self.entries.set_parent(idx, parent);
        let ghost e5 = self.entries.slots();
        proof {
            lemma_flags_kept(e3, e4);
            assert forall|i: int| #[trigger] graph::kid(e5, x, i) <==> graph::kid(e4, x, i) by {}
            graph::lemma_kids_to(e4, x, e5, x, self.kids@);
            if graph::exact(e4, x) {
                assert forall|i: int| graph::kid(e5, x, i) implies #[trigger] graph::exact_node(
                    e5,
                    i,
                ) by {
                    assert(graph::kid(e4, x, i));
                    assert(graph::exact_node(e4, i));
                }
            }
        }
        graph::link_child(&mut self.entries, idx, Ghost(self.kids@));
        let ghost e6 = self.entries.slots();
        proof {
            self.kids@ = self.kids@.with_first(x);
            lemma_flags_kept(e5, e6);
        }
        let flags = self.entries.flags(idx);
        let was_placeholder = flags.contains(EntryFlags::PLACEHOLDER);
        let f1 = flags.with(EntryFlags::DIR, is_dir);
        let f2 = f1.with(EntryFlags::NON_UNICODE_NAME, lossy);
        let f3 = f2.with(EntryFlags::PLACEHOLDER, false);
        proof {
            store::lemma_one_flag(flags, f1, EntryFlags::DIR, is_dir);
            store::lemma_one_flag(f1, f2, EntryFlags::NON_UNICODE_NAME, lossy);
            store::lemma_one_flag(f2, f3, EntryFlags::PLACEHOLDER, false);
        }
        self.entries.set_flags(idx, f3);
        let ghost e7 = self.entries.slots();
        if was_placeholder {
            self.live_placeholders = self.live_placeholders.saturating_sub(1);
        }
        proof {
            assert forall|i: int| #[trigger] graph::kid(e7, -1, i) <==> graph::kid(e6, -1, i) by {}
            graph::lemma_kids_to(e6, -1, e7, -1, self.kids@);
            if graph::exact(e6, -1) {
                assert forall|i: int| graph::kid(e7, -1, i) implies #[trigger] graph::exact_node(
                    e7,
                    i,
                ) by {
                    assert(graph::kid(e6, -1, i));
                    assert(graph::exact_node(e6, i));
                }
            }
            assert forall|i: int| 0 <= i < a.len() && i != x implies #[trigger] e7[i].frn
                == a[i].frn && e7[i].parent == a[i].parent && e7[i].name_id == a[i].name_id
                && e7[i].size == a[i].size && e7[i].mtime == a[i].mtime && e7[i].next_link
                == a[i].next_link && e7[i].next_same == e3[i].next_same && e7[i].prev_same
                == e3[i].prev_same && graph::same_flags(a[i].flags, e7[i].flags) by {
                assert(e3[i].frn == a[i].frn);
                assert(e3[i].flags == a[i].flags);
                assert(graph::same_flags(e3[i].flags, e4[i].flags));
                assert(e5[i] == e4[i]);
                assert(graph::same_flags(e5[i].flags, e6[i].flags));
                assert(e7[i] == e6[i]);
            }
            assert(e7[x].frn == a[x].frn && e7[x].parent == parent && e7[x].name_id == id
                && e7[x].size == a[x].size && e7[x].mtime == a[x].mtime && e7[x].next_link
                == a[x].next_link && e7[x].next_same == e3[x].next_same && e7[x].prev_same
                == e3[x].prev_same && e7[x].live() && e7[x].flags.has(EntryFlags::LOST_FOUND)
                == a[x].flags.has(EntryFlags::LOST_FOUND) && flags.has(EntryFlags::PLACEHOLDER)
                == a[x].flags.has(EntryFlags::PLACEHOLDER)) by {
                assert(e3[x].frn == a[x].frn);
                assert(e3[x].flags == a[x].flags);
                assert(graph::same_flags(e3[x].flags, e4[x].flags));
                assert(graph::same_flags(e5[x].flags, e6[x].flags));
            }
            assert forall|i: int| #[trigger] graph::there(e7, -1, i) <==> graph::there(
                e3,
                -1,
                i,
            ) by {
                if 0 <= i < a.len() {
                    assert(e3[i].flags == a[i].flags);
                    if i != x {
                        assert(e7[i].frn == a[i].frn);
                    }
                }
            }
            assert forall|i: int| #[trigger]
                graph::there(e7, -1, i) implies e7[i].name_id == e3[i].name_id && e7[i].next_same
                == e3[i].next_same && e7[i].prev_same == e3[i].prev_same by {
                if i != x {
                    assert(e7[i].frn == a[i].frn);
                    assert(e3[i].name_id == a[i].name_id);
                }
            }
            graph::lemma_names_to(e3, -1, e7, -1, m4, self.same@, -1);
            assert forall|i: int|
                0 <= i < a.len() && i != x && a[i].live() implies #[trigger] m4.bytes[a[i].name_id as int]
                == m.bytes[a[i].name_id as int] by {
                assert(e1[i].frn == a[i].frn);
                assert(graph::there(e1, x, i));
            }
            assert forall|i: int| #[trigger]
                indexed(e7, self.root, self.lost_found, i) && i != x <==> indexed(
                    a,
                    self.root,
                    self.lost_found,
                    i,
                ) && i != x by {
                if 0 <= i < a.len() && i != x {
                    assert(e7[i].frn == a[i].frn);
                }
            }
            assert forall|i: int| #[trigger]
                indexed(e7, self.root, self.lost_found, i) && i != x implies key_of(e7, m4, i)
                == key_of(a, m, i) by {
                assert(e7[i].frn == a[i].frn);
                assert(m4.bytes[a[i].name_id as int] == m.bytes[a[i].name_id as int]);
            }
            lemma_dirs_to(a, m, x, e7, m4, x, lists, self.root, self.lost_found);
            assert(chains_ok(e7, self.lost_found, self.chains@)) by {
                assert forall|r: u64| #[trigger] self.chains@.dom().contains(r) implies chain_ok(
                    e7,
                    self.lost_found,
                    r,
                    self.chains@[r],
                ) by {
                    let c = self.chains@[r];
                    assert(chain_ok(a, self.lost_found, r, c));
                    assert forall|k: int| #![trigger c[k]] 0 <= k < c.len() implies e7[c[k] as int].frn
                        == a[c[k] as int].frn && e7[c[k] as int].live() by {}
                }
            }
            assert(parents_ok(e7)) by {
                assert forall|i: int| 0 <= i < e7.len() implies (#[trigger] e7[i]).parent == NIL
                    || e7[i].parent < e7.len() by {
                    if i != x {
                        assert(e7[i].frn == a[i].frn);
                    }
                }
            }
            assert forall|i: int| 0 <= i < e7.len() && (#[trigger] e7[i]).live() implies (
            e7[i].flags.has(EntryFlags::LOST_FOUND) <==> i == self.lost_found) by {
                if i != x {
                    assert(e7[i].frn == a[i].frn);
                }
            }
            let lf = self.lost_found as int;
            assert(e7[lf].frn == a[lf].frn);
        }
        self.dir_index_insert(idx);
        self.dirty = self.dirty + 1;
        proof {
            let want = old(self).model().rewritten(idx, parent, name@, lossy, is_dir);
            assert(self.model().detached =~= want.detached) by {
                assert forall|i: EntryIdx| self.model().detached.contains(i)
                    <==> want.detached.contains(i) by {
                    if i != x && i < e7.len() {
                        assert(e7[i as int] == e6[i as int]);
                        assert(e6[i as int].flags == e5[i as int].flags);
                        assert(e5[i as int] == e4[i as int]);
                        assert(e4[i as int].flags == e3[i as int].flags);
                        assert(e3[i as int].flags == a[i as int].flags);
                    }
                }
                assert(!graph::cut(e6[x]));
                assert(e7[x].flags == f3);
            }
            let want = old(self).model().rewritten(idx, parent, name@, lossy, is_dir);
            assert(self.model().slots =~= want.slots) by {
                assert forall|i: int| 0 <= i < e7.len() implies self.model().slots[i]
                    == want.slots[i] by {
                    if i != x {
                        assert(e7[i].frn == a[i].frn);
                        if a[i].live() {
                            assert(m4.bytes[a[i].name_id as int] == m.bytes[a[i].name_id as int]);
                        }
                    }
                }
            }
        }
    }
}

/// Links to siblings and children aside, the entries are the same.
proof fn lemma_flags_kept(a: Seq<Slot>, b: Seq<Slot>)
    requires
        graph::child_links_only(a, b),
    ensures
        forall|i: int| #[trigger] graph::there(b, -1, i) <==> graph::there(a, -1, i),
{
    assert forall|i: int| #[trigger] graph::there(b, -1, i) <==> graph::there(a, -1, i) by {
        if 0 <= i < a.len() {
            assert(graph::same_flags(a[i].flags, b[i].flags));
        }
    }
}

} // verus!
