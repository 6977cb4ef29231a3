//! From MFT record numbers to entries.

use crate::index::store;
use crate::index::store::ComponentBytes;
use crate::types::{EntryIdx, NIL};
use rustc_hash::FxHashMap;
use vstd::arithmetic::power2;
use vstd::prelude::*;

verus! {

/// `rustc_hash::FxBuildHasher`, the hasher of the sparse map.
#[verifier::external_type_specification]
#[verifier::external_body]
pub struct ExFxBuildHasher(rustc_hash::FxBuildHasher);

/// `HashMap::default`: an empty map.
#[verifier::external_body]
fn new_map() -> (m: FxHashMap<u64, EntryIdx>)
    ensures
        m@.dom() == Set::<u64>::empty(),
{
    FxHashMap::default()
}

/// `HashMap::get`: the value at the key.
#[verifier::external_body]
fn map_get(m: &FxHashMap<u64, EntryIdx>, key: u64) -> (r: Option<EntryIdx>)
    ensures
        r is Some <==> m@.dom().contains(key),
        r matches Some(v) ==> v == m@[key],
{
    m.get(&key).copied()
}

/// `HashMap::insert`: the key has the value from now on.
#[verifier::external_body]
fn map_insert(m: &mut FxHashMap<u64, EntryIdx>, key: u64, value: EntryIdx)
    ensures
        final(m)@ == old(m)@.insert(key, value),
{
    m.insert(key, value);
}

/// `HashMap::remove`: the key has no value from now on.
#[verifier::external_body]
fn map_remove(m: &mut FxHashMap<u64, EntryIdx>, key: u64)
    ensures
        final(m)@ == old(m)@.remove(key),
{
    m.remove(&key);
}

/// `HashMap::len`: the number of keys.
#[verifier::external_body]
fn map_len(m: &FxHashMap<u64, EntryIdx>) -> (n: usize)
    ensures
        n == m@.dom().len(),
{
    m.len()
}

/// `HashMap::capacity`: at least the number of keys.
#[verifier::external_body]
fn map_capacity(m: &FxHashMap<u64, EntryIdx>) -> (n: usize)
    ensures
        n >= m@.dom().len(),
{
    m.capacity()
}

/// `HashMap::iter`: every key with its value, once, in no particular order.
#[verifier::external_body]
fn map_items(m: &FxHashMap<u64, EntryIdx>) -> (items: Vec<(u64, EntryIdx)>)
    ensures
        forall|k: int|
            0 <= k < items@.len() ==> m@.dom().contains((#[trigger] items@[k]).0)
                && items@[k].1 == m@[items@[k].0],
        forall|key: u64| #[trigger]
            m@.dom().contains(key) ==> exists|k: int|
                0 <= k < items@.len() && (#[trigger] items@[k]).0 == key,
        forall|a: int, b: int|
            0 <= a < items@.len() && 0 <= b < items@.len() && a != b ==> (#[trigger] items@[a]).0
                != (#[trigger] items@[b]).0,
{
    m.iter().map(|(&key, &value)| (key, value)).collect()
}

/// `Vec::shrink_to_fit`: the items stay. How much room is left behind them is
/// up to the allocator, and is not said.
#[verifier::external_body]
fn shrink_table(v: &mut Vec<EntryIdx>)
    ensures
        final(v)@ == old(v)@,
{
    v.shrink_to_fit()
}

/// A number that does not occur as a record number on a machine whose
/// addresses are narrower than that.
pub open spec fn addressable(record: u64) -> bool {
    record < usize::MAX
}

/// A map from record numbers to entries: a hash map, or a table indexed by
/// record number.
pub enum FrnMap {
    Dense(Vec<EntryIdx>),
    Sparse(FxHashMap<u64, EntryIdx>),
}

impl FrnMap {
    /// The entries by record number.
    pub open spec fn map(&self) -> Map<u64, EntryIdx> {
        match self {
            FrnMap::Dense(v) => Map::new(
                |r: u64| r < v@.len() && v@[r as int] != NIL,
                |r: u64| v@[r as int],
            ),
            FrnMap::Sparse(m) => m@,
        }
    }

    /// No record maps to the sentinel.
    pub open spec fn wf(&self) -> bool {
        forall|r: u64| #[trigger] self.map().dom().contains(r) ==> self.map()[r] != NIL
    }

    /// An empty hash map.
    pub fn sparse() -> (m: FrnMap)
        ensures
            m.wf(),
            m.map().dom() == Set::<u64>::empty(),
            m is Sparse,
    {
        FrnMap::Sparse(new_map())
    }

    /// An empty table with room for `capacity` records.
    pub fn dense(capacity: usize) -> (m: FrnMap)
        ensures
            m.wf(),
            m.map().dom() =~= Set::<u64>::empty(),
            m is Dense,
            m->Dense_0@ == Seq::new(capacity as nat, |r: int| NIL),
    {
        let v: Vec<EntryIdx> = vec![NIL; capacity];
        assert(v@ =~= Seq::new(capacity as nat, |r: int| NIL));
        FrnMap::Dense(v)
    }

    /// The entry of a record.
    pub fn get(&self, record: u64) -> (r: Option<EntryIdx>)
        ensures
            r == if self.map().dom().contains(record) && self.map()[record] != NIL {
                Some(self.map()[record])
            } else if self.map().dom().contains(record) {
                Some(NIL)
            } else {
                None
            },
    {
        match self {
            FrnMap::Dense(v) => {
                if record < v.len() as u64 {
                    let idx = v[record as usize];
                    if idx != NIL {
                        Some(idx)
                    } else {
                        None
                    }
                } else {
                    None
                }
            },
            FrnMap::Sparse(m) => map_get(m, record),
        }
    }

    /// Gives a record an entry.
    pub fn set(&mut self, record: u64, idx: EntryIdx)
        requires
            idx != NIL,
            *old(self) is Dense ==> addressable(record),
        ensures
            final(self).map() == old(self).map().insert(record, idx),
            old(self).wf() ==> final(self).wf(),
            (*final(self) is Dense) == (*old(self) is Dense),
    {
        match self {
            FrnMap::Dense(v) => {
                let r = record as usize;
                let n = v.len();
                if r >= n {
                    v.resize(r + 1, NIL);
                    assert(v@.subrange(0, n as int) =~= (*old(self))->Dense_0@);
                    assert forall|k: int| 0 <= k < n implies v@[k] == (*old(self))->Dense_0@[k] by {
                        assert(v@.subrange(0, n as int)[k] == v@[k]);
                    }
                }
                v[r] = idx;
            },
            FrnMap::Sparse(m) => {
                map_insert(m, record, idx);
            },
        }
        assert(self.map() =~= old(self).map().insert(record, idx));
    }

    /// Takes the entry of a record away.
    pub fn remove(&mut self, record: u64)
        ensures
            final(self).map() == old(self).map().remove(record),
            old(self).wf() ==> final(self).wf(),
            (*final(self) is Dense) == (*old(self) is Dense),
    {
        match self {
            FrnMap::Dense(v) => {
                if record < v.len() as u64 {
                    v[record as usize] = NIL;
                }
            },
            FrnMap::Sparse(m) => {
                map_remove(m, record);
            },
        }
        assert(self.map() =~= old(self).map().remove(record));
    }

    /// Turns a hash map into a table where the table takes less memory; the
    /// entries stay the same. A hash map may have allocated more than its
    /// entries call for. So a table is made where it takes less than those, and
    /// may be made where it does not.
    pub fn densify_if_smaller(&mut self)
        requires
            old(self).wf(),
        ensures
            final(self).map() == old(self).map(),
            final(self).wf(),
            *old(self) is Dense ==> *final(self) == *old(self),
            old(self).map().dom() == Set::<u64>::empty() ==> (*final(self) is Dense) == (*old(self) is Dense),
            *old(self) is Sparse ==> forall|max: u64| #[trigger]
                is_greatest(old(self).map().dom(), max) ==> {
                    &&& max < usize::MAX && table_wins(max, old(self).map().dom().len())
                        ==> *final(self) is Dense
                    &&& *final(self) is Dense ==> (*final(self))->Dense_0@.len() == max + 1
                },
    {
        let table = match self {
            FrnMap::Dense(_) => None,
            FrnMap::Sparse(m) => {
                assert forall|r: u64| #[trigger] m@.dom().contains(r) implies m@[r] != NIL by {
                    assert(old(self).map().dom().contains(r));
                }
                smaller_table(m)
            },
        };
        if let Some(v) = table {
            *self = FrnMap::Dense(v);
            assert(self.map() =~= old(self).map());
        }
    }

    /// Gives back the spare capacity of a table.
    pub fn shrink_to_fit(&mut self)
        ensures
            final(self).map() == old(self).map(),
            old(self).wf() ==> final(self).wf(),
            (*final(self) is Dense) == (*old(self) is Dense),
            *old(self) is Dense ==> (*final(self))->Dense_0@ == (*old(self))->Dense_0@,
    {
        if let FrnMap::Dense(v) = self {
            shrink_table(v);
        }
        assert(self.map() =~= old(self).map());
    }

    /// The name of the representation.
    pub fn kind(&self) -> (s: &'static str)
        ensures
            s@ == (if self is Dense {
                "dense"@
            } else {
                "sparse"@
            }),
    {
        match self {
            FrnMap::Dense(_) => "dense",
            FrnMap::Sparse(_) => "sparse",
        }
    }

    /// Bytes of the map. Those in use are counted as buckets of a hash map, or
    /// as the whole table.
    pub fn memory(&self) -> (c: ComponentBytes)
        ensures
            c.used == (match self {
                FrnMap::Dense(v) => store::capped(v@.len() as int * 4),
                FrnMap::Sparse(m) => store::capped(m@.dom().len() as int * 17),
            }),
            c.allocated >= c.used,
    {
        match self {
            FrnMap::Dense(v) => ComponentBytes::of_vec(v, 4),
            FrnMap::Sparse(m) => {
                let buckets = buckets_for(map_capacity(m));
                let allocated = buckets * 17;
                ComponentBytes {
                    used: store::times(map_len(m), 17),
                    allocated: if allocated > u64::MAX as u128 {
                        u64::MAX
                    } else {
                        allocated as u64
                    },
                }
            },
        }
    }
}

/// The least power of two that is at least `n`.
pub open spec fn power_from(n: nat) -> nat
    decreases n,
{
    if n <= 1 {
        1
    } else {
        2 * power_from((n + 1) / 2)
    }
}

proof fn lemma_power_from(n: nat, p: nat, k: nat)
    requires
        p == power2::pow2(k),
        n <= p,
        p < 2 * n || p == 1,
    ensures
        power_from(n) == p,
    decreases k,
{
    if k == 0 {
        power2::lemma2_to64();
    } else {
        power2::lemma_pow2_unfold(k);
        let half = power2::pow2((k - 1) as nat);
        power2::lemma_pow2_pos((k - 1) as nat);
        if n > 1 {
            lemma_power_from((n + 1) / 2, half, (k - 1) as nat);
        }
    }
}

proof fn lemma_power_grows(a: nat, b: nat)
    requires
        a <= b,
    ensures
        power_from(a) <= power_from(b),
        b <= power_from(b),
    decreases b,
{
    if b > 1 {
        lemma_power_grows(if a <= 1 { 1 } else { (a + 1) / 2 }, (b + 1) / 2);
        lemma_power_grows((b + 1) / 2, (b + 1) / 2);
    }
}

/// How many buckets a hash map with this capacity has: it fills seven eighths
/// of a power of two.
pub open spec fn buckets(capacity: nat) -> nat {
    power_from(capacity * 8 / 7)
}

fn power_of_two_from(n: u128) -> (p: u128)
    requires
        n <= 0x1_0000_0000_0000_0000_0000_0000,
    ensures
        p == power_from(n as nat),
        n <= p,
        1 <= p,
        p < 2 * n || p == 1,
{
    let mut p: u128 = 1;
    let ghost mut k: nat = 0;
    proof {
        power2::lemma2_to64();
    }
    while p < n
        invariant
            1 <= p,
            p < 2 * n || p == 1,
            n <= 0x1_0000_0000_0000_0000_0000_0000,
            p == power2::pow2(k),
        decreases 0x2_0000_0000_0000_0000_0000_0000 - p,
    {
        p = p * 2;
        proof {
            k = k + 1;
            power2::lemma_pow2_unfold(k);
        }
    }
    proof {
        lemma_power_from(n as nat, p as nat, k);
    }
    p
}

/// How many buckets a hash map with this capacity has.
pub(crate) fn buckets_for(capacity: usize) -> (n: u128)
    ensures
        n == buckets(capacity as nat),
        n >= 1,
        n >= capacity,
        n <= 0x10_0000_0000_0000_0000,
{
    power_of_two_from(capacity as u128 * 8 / 7)
}

/// A table up to this record takes less memory than a hash map with this
/// capacity.
pub open spec fn table_wins(max: u64, capacity: nat) -> bool {
    (max + 1) * 4 < buckets(capacity) * 17
}

/// Whether a table up to this record takes less memory than a hash map with
/// this capacity.
pub fn table_is_smaller(max: u64, capacity: usize) -> (r: bool)
    ensures
        r == table_wins(max, capacity as nat),
{
    (max as u128 + 1) * 4 < buckets_for(capacity) * 17
}

/// The greatest of some records.
pub open spec fn is_greatest(records: Set<u64>, max: u64) -> bool {
    records.contains(max) && forall|r: u64| #[trigger] records.contains(r) ==> r <= max
}

/// The table that stands for a hash map, where it takes less memory.
fn smaller_table(m: &FxHashMap<u64, EntryIdx>) -> (r: Option<Vec<EntryIdx>>)
    requires
        forall|r: u64| #[trigger] m@.dom().contains(r) ==> m@[r] != NIL,
    ensures
        r matches Some(v) ==> {
            &&& m@.dom() != Set::<u64>::empty()
            &&& forall|r: u64| #[trigger]
                m@.dom().contains(r) ==> r < v@.len() && v@[r as int] == m@[r]
            &&& forall|r: u64| r < v@.len() && #[trigger] v@[r as int] != NIL ==> m@.dom().contains(r)
        },
        forall|max: u64| #[trigger]
            is_greatest(m@.dom(), max) && max < usize::MAX && table_wins(max, m@.dom().len())
                ==> r is Some,
        forall|max: u64| #[trigger]
            is_greatest(m@.dom(), max) && r is Some ==> r->Some_0@.len() == max + 1,
{
    let items = map_items(m);
    if items.len() == 0 {
        return None;
    }
    let mut max: u64 = items[0].0;
    let mut i: usize = 0;
    while i < items.len()
        invariant
            i <= items@.len(),
            exists|k: int| 0 <= k < items@.len() && (#[trigger] items@[k]).0 == max,
            forall|k: int| 0 <= k < i ==> (#[trigger] items@[k]).0 <= max,
        decreases items@.len() - i,
    {
        if items[i].0 > max {
            max = items[i].0;
        }
        i = i + 1;
    }
    proof {
        assert(is_greatest(m@.dom(), max)) by {
            let k = choose|k: int| 0 <= k < items@.len() && (#[trigger] items@[k]).0 == max;
            assert(m@.dom().contains(items@[k].0));
            assert forall|r: u64| #[trigger] m@.dom().contains(r) implies r <= max by {
                let j = choose|j: int| 0 <= j < items@.len() && (#[trigger] items@[j]).0 == r;
                assert(items@[j].0 <= max);
            }
        }
        assert forall|other: u64| #[trigger] is_greatest(m@.dom(), other) implies other == max by {
        }
    }
    let capacity = map_capacity(m);
    if max >= usize::MAX as u64 || !table_is_smaller(max, capacity) {
        proof {
            lemma_power_grows(m@.dom().len() * 8 / 7, capacity as nat * 8 / 7);
        }
        return None;
    }
    let mut v: Vec<EntryIdx> = vec![NIL; max as usize + 1];
    let mut j: usize = 0;
    while j < items.len()
        invariant
            j <= items@.len(),
            max < usize::MAX,
            v@.len() == max + 1,
            forall|k: int| 0 <= k < items@.len() ==> (#[trigger] items@[k]).0 <= max,
            forall|k: int| 0 <= k < j ==> v@[(#[trigger] items@[k]).0 as int] == items@[k].1,
            forall|a: int, b: int|
                0 <= a < items@.len() && 0 <= b < items@.len() && a != b ==> (
                #[trigger] items@[a]).0 != (#[trigger] items@[b]).0,
            forall|r: int|
                0 <= r < v@.len() && #[trigger] v@[r] != NIL ==> exists|k: int|
                    0 <= k < j && (#[trigger] items@[k]).0 == r,
        decreases items@.len() - j,
    {
        let (record, idx) = items[j];
        let ghost before = v@;
        v[record as usize] = idx;
        proof {
            assert forall|r: int| 0 <= r < v@.len() && #[trigger] v@[r] != NIL implies exists|k: int|
                0 <= k < j + 1 && (#[trigger] items@[k]).0 == r by {
                if r == record {
                    assert(items@[j as int].0 == r);
                } else {
                    assert(before[r] != NIL);
                }
            }
        }
        j = j + 1;
    }
    proof {
        assert(m@.dom().contains(items@[0].0));
        assert forall|r: u64| #[trigger] m@.dom().contains(r) implies r < v@.len() && v@[r as int]
            == m@[r] by {
            let k = choose|k: int| 0 <= k < items@.len() && (#[trigger] items@[k]).0 == r;
            assert(v@[items@[k].0 as int] == items@[k].1);
        }
        assert forall|r: u64| r < v@.len() && #[trigger] v@[r as int] != NIL implies m@.dom().contains(
            r,
        ) by {
            let k = choose|k: int| 0 <= k < j && (#[trigger] items@[k]).0 == r as int;
            assert(m@.dom().contains(items@[k].0));
        }
    }
    Some(v)
}

} // verus!
