//! Directories by parent and folded name.

use crate::index::frn_map::buckets_for;
use crate::index::store;
use crate::index::store::ComponentBytes;
use crate::types::EntryIdx;
use rustc_hash::FxHashMap;
use smallvec::SmallVec;
use vstd::prelude::*;

verus! {

/// Lists of directories by parent and hash of the folded name, in a hash map
/// of small vectors.
#[verifier::external_body]
pub struct DirIndex {
    lists: FxHashMap<(EntryIdx, u64), SmallVec<[EntryIdx; 1]>>,
}

/// Bytes of a bucket: the parent and the hash (16), the small vector (24 where
/// an address has 64 bits, else 12, padded to 16) and the control byte.
pub open spec fn bucket_len() -> int {
    if usize::BITS == 64 {
        41
    } else {
        33
    }
}

/// The lists of an index.
pub uninterp spec fn lists_of(d: DirIndex) -> Map<(EntryIdx, u64), Seq<EntryIdx>>;

/// `HashMap::default`: no list.
#[verifier::external_body]
fn new_lists() -> (d: DirIndex)
    ensures
        lists_of(d).dom() == Set::<(EntryIdx, u64)>::empty(),
{
    DirIndex { lists: FxHashMap::default() }
}

/// `HashMap::get`: the list at the key.
#[verifier::external_body]
fn list_at(d: &DirIndex, key: (EntryIdx, u64)) -> (r: Option<&[EntryIdx]>)
    ensures
        r is Some <==> lists_of(*d).dom().contains(key),
        r matches Some(s) ==> s@ == lists_of(*d)[key],
{
    d.lists.get(&key).map(|list| list.as_slice())
}

/// `HashMap::insert`: the list at the key is this one from now on.
#[verifier::external_body]
fn put_list(d: &mut DirIndex, key: (EntryIdx, u64), list: &[EntryIdx])
    ensures
        lists_of(*final(d)) == lists_of(*old(d)).insert(key, list@),
{
    d.lists.insert(key, SmallVec::from_slice(list));
}

/// `HashMap::remove`: there is no list at the key from now on.
#[verifier::external_body]
fn drop_list(d: &mut DirIndex, key: (EntryIdx, u64))
    ensures
        lists_of(*final(d)) == lists_of(*old(d)).remove(key),
{
    d.lists.remove(&key);
}

/// `HashMap::len`: the number of lists.
#[verifier::external_body]
fn list_count(d: &DirIndex) -> (n: usize)
    ensures
        n == lists_of(*d).dom().len(),
{
    d.lists.len()
}

/// `HashMap::capacity`: at least the number of lists.
#[verifier::external_body]
fn list_capacity(d: &DirIndex) -> (n: usize)
    ensures
        n >= lists_of(*d).dom().len(),
{
    d.lists.capacity()
}

/// `HashMap::shrink_to_fit`: the lists stay. How much room is left is up to the
/// map, and is not said.
#[verifier::external_body]
fn shrink_lists(d: &mut DirIndex)
    ensures
        lists_of(*final(d)) == lists_of(*old(d)),
{
    d.lists.shrink_to_fit()
}

/// The entry is in the list at the key.
pub open spec fn listed(
    lists: Map<(EntryIdx, u64), Seq<EntryIdx>>,
    key: (EntryIdx, u64),
    idx: EntryIdx,
) -> bool {
    lists.dom().contains(key) && lists[key].contains(idx)
}

/// No list is empty or holds an entry twice.
pub open spec fn tidy(lists: Map<(EntryIdx, u64), Seq<EntryIdx>>) -> bool {
    forall|key: (EntryIdx, u64)| #[trigger]
        lists.dom().contains(key) ==> lists[key].len() > 0 && lists[key].no_duplicates()
}

fn holds(list: &[EntryIdx], idx: EntryIdx) -> (r: bool)
    ensures
        r == list@.contains(idx),
{
    let mut i: usize = 0;
    while i < list.len()
        invariant
            i <= list@.len(),
            forall|k: int| 0 <= k < i ==> list@[k] != idx,
        decreases list@.len() - i,
    {
        if list[i] == idx {
            return true;
        }
        i = i + 1;
    }
    false
}

impl DirIndex {
    pub open spec fn lists(&self) -> Map<(EntryIdx, u64), Seq<EntryIdx>> {
        lists_of(*self)
    }

    pub fn new() -> (d: DirIndex)
        ensures
            tidy(d.lists()),
            forall|key: (EntryIdx, u64), idx: EntryIdx| !#[trigger] listed(d.lists(), key, idx),
    {
        new_lists()
    }

    /// Puts an entry in the list at a key, unless it is there.
    pub fn insert(&mut self, key: (EntryIdx, u64), idx: EntryIdx)
        requires
            tidy(old(self).lists()),
        ensures
            tidy(final(self).lists()),
            forall|k: (EntryIdx, u64), e: EntryIdx| #[trigger]
                listed(final(self).lists(), k, e) <==> listed(old(self).lists(), k, e) || (k == key
                    && e == idx),
    {
        let ghost before = self.lists();
        let mut list: Vec<EntryIdx> = Vec::new();
        if let Some(old_list) = list_at(self, key) {
            if holds(old_list, idx) {
                return ;
            }
            list.extend_from_slice(old_list);
            assert(list@ =~= old_list@);
        } else {
            assert(list@ =~= Seq::<EntryIdx>::empty());
        }
        let ghost was = list@;
        list.push(idx);
        put_list(self, key, list.as_slice());
        proof {
            let after = self.lists();
            assert(!was.contains(idx));
            assert forall|a: int, b: int|
                0 <= a < list@.len() && 0 <= b < list@.len() && a != b implies list@[a]
                != list@[b] by {
                if a == was.len() {
                    assert(was[b] == list@[b]);
                    assert(was.contains(was[b]));
                } else if b == was.len() {
                    assert(was[a] == list@[a]);
                    assert(was.contains(was[a]));
                } else {
                    assert(was[a] == list@[a] && was[b] == list@[b]);
                }
            }
            assert forall|k: (EntryIdx, u64), e: EntryIdx| #[trigger]
                listed(after, k, e) <==> listed(before, k, e) || (k == key && e == idx) by {
                if k == key {
                    assert(after[key] == list@);
                    if list@.contains(e) {
                        let j = choose|j: int| 0 <= j < list@.len() && list@[j] == e;
                        if j < was.len() {
                            assert(was[j] == e);
                        }
                    }
                    if was.contains(e) {
                        let j = choose|j: int| 0 <= j < was.len() && was[j] == e;
                        assert(list@[j] == e);
                    }
                    assert(list@[was.len() as int] == idx);
                }
            }
        }
    }

    /// Takes an entry out of the list at a key; an empty list goes.
    pub fn remove(&mut self, key: (EntryIdx, u64), idx: EntryIdx)
        requires
            tidy(old(self).lists()),
        ensures
            tidy(final(self).lists()),
            forall|k: (EntryIdx, u64), e: EntryIdx| #[trigger]
                listed(final(self).lists(), k, e) <==> listed(old(self).lists(), k, e) && !(k == key
                    && e == idx),
    {
        let ghost before = self.lists();
        let mut list: Vec<EntryIdx> = Vec::new();
        match list_at(self, key) {
            None => {
                return ;
            },
            Some(old_list) => {
                let mut i: usize = 0;
                while i < old_list.len()
                    invariant
                        i <= old_list@.len(),
                        old_list@.no_duplicates(),
                        list@.no_duplicates(),
                        forall|e: EntryIdx| #[trigger]
                            list@.contains(e) <==> e != idx && exists|k: int|
                                0 <= k < i && #[trigger] old_list@[k] == e,
                    decreases old_list@.len() - i,
                {
                    let e = old_list[i];
                    let ghost was = list@;
                    if e != idx {
                        list.push(e);
                    }
                    proof {
                        assert(!was.contains(e)) by {
                            if was.contains(e) {
                                let k = choose|k: int| 0 <= k < i && #[trigger] old_list@[k] == e;
                                assert(old_list@[k] == old_list@[i as int]);
                            }
                        }
                        assert forall|f: EntryIdx| #[trigger]
                            list@.contains(f) <==> f != idx && exists|k: int|
                                0 <= k < i + 1 && #[trigger] old_list@[k] == f by {
                            if list@.contains(f) {
                                let j = choose|j: int| 0 <= j < list@.len() && list@[j] == f;
                                if j < was.len() {
                                    assert(was[j] == f);
                                    assert(was.contains(f));
                                } else {
                                    assert(old_list@[i as int] == f);
                                }
                            }
                            if f != idx && exists|k: int|
                                0 <= k < i + 1 && #[trigger] old_list@[k] == f {
                                let k = choose|k: int|
                                    0 <= k < i + 1 && #[trigger] old_list@[k] == f;
                                if k < i {
                                    assert(was.contains(f));
                                    let j = choose|j: int| 0 <= j < was.len() && was[j] == f;
                                    assert(list@[j] == f);
                                } else {
                                    assert(list@[was.len() as int] == f);
                                }
                            }
                        }
                        assert forall|a: int, b: int|
                            0 <= a < list@.len() && 0 <= b < list@.len() && a != b implies list@[a]
                            != list@[b] by {
                            if a == was.len() {
                                assert(was[b] == list@[b]);
                                assert(was.contains(was[b]));
                            } else if b == was.len() {
                                assert(was[a] == list@[a]);
                                assert(was.contains(was[a]));
                            } else {
                                assert(was[a] == list@[a] && was[b] == list@[b]);
                            }
                        }
                    }
                    i = i + 1;
                }
                proof {
                    assert forall|e: EntryIdx| #[trigger]
                        list@.contains(e) <==> e != idx && before[key].contains(e) by {
                        if before[key].contains(e) {
                            let k = choose|k: int| 0 <= k < before[key].len() && before[key][k] == e;
                            assert(old_list@[k] == e);
                        }
                    }
                }
            },
        }
        if list.len() == 0 {
            drop_list(self, key);
            proof {
                assert forall|k: (EntryIdx, u64), e: EntryIdx| #[trigger]
                    listed(self.lists(), k, e) <==> listed(before, k, e) && !(k == key && e
                        == idx) by {
                    if k == key {
                        assert(!list@.contains(e));
                    }
                }
            }
        } else {
            put_list(self, key, list.as_slice());
            proof {
                assert forall|k: (EntryIdx, u64), e: EntryIdx| #[trigger]
                    listed(self.lists(), k, e) <==> listed(before, k, e) && !(k == key && e
                        == idx) by {
                    if k == key {
                        assert(self.lists()[key] == list@);
                        assert(list@.contains(e) <==> e != idx && before[key].contains(e));
                    }
                }
            }
        }
    }

    /// The list at a key.
    pub fn list(&self, key: (EntryIdx, u64)) -> (r: Option<&[EntryIdx]>)
        ensures
            r is Some <==> self.lists().dom().contains(key),
            r matches Some(s) ==> s@ == self.lists()[key],
    {
        list_at(self, key)
    }

    /// Bytes of the map, counted in buckets.
    pub fn memory(&self) -> (c: ComponentBytes)
        ensures
            c.used == store::capped(self.lists().dom().len() as int * bucket_len()),
            c.allocated >= c.used,
    {
        let wide = usize::BITS == 64;
        let count = buckets_for(list_capacity(self));
        let buckets = if wide {
            count * 41
        } else {
            count * 33
        };
        ComponentBytes {
            used: if wide {
                store::times(list_count(self), 41)
            } else {
                store::times(list_count(self), 33)
            },
            allocated: if buckets > u64::MAX as u128 {
                u64::MAX
            } else {
                buckets as u64
            },
        }
    }

    /// Gives back the spare capacity.
    pub fn shrink_to_fit(&mut self)
        ensures
            final(self).lists() == old(self).lists(),
    {
        shrink_lists(self)
    }
}

} // verus!
