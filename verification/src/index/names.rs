//! Interned names.
//!
//! Each distinct name is stored once, in two byte arenas: as it is written and
//! folded. A name that folds to itself is stored in the folded arena only. A
//! NUL follows every name. When the last entry with a name goes, its bytes are
//! cleared; they are given back by a compaction.

use crate::fold;
use crate::index::frn_map::buckets_for;
use crate::index::store::{shrink_vec, ComponentBytes, NameId};
use crate::le;
use crate::types::{EntryIdx, NIL};
use hashbrown::HashTable;
use rustc_hash::FxHasher;
use std::hash::{Hash, Hasher};
use vstd::prelude::*;

verus! {

/// Where a name lies in an arena.
#[derive(Clone, Copy, Debug, PartialEq, Eq, Structural)]
pub struct NameRef {
    pub off: u32,
    pub len: u16,
}

impl Default for NameRef {
    fn default() -> (r: NameRef)
        ensures
            r.off == 0,
            r.len == 0,
    {
        NameRef { off: 0, len: 0 }
    }
}

/// Added to the offset of a raw name that lies in the folded arena.
pub const RAW_IN_FOLDED: u32 = 0x8000_0000;

/// The longest name, raw or folded.
pub const MAX_NAME: usize = 0xFFFF;

/// Where the two forms of a name lie.
#[derive(Clone, Copy, Debug, PartialEq, Eq, Structural)]
pub struct NamePair {
    pub raw: NameRef,
    pub folded: NameRef,
}

/// The raw name is the folded one.
pub open spec fn shared(p: NamePair) -> bool {
    p.raw.off >= RAW_IN_FOLDED
}

/// Bytes of the folded arena that the first `k` names take.
pub open spec fn fsum(pairs: Seq<NamePair>, k: int) -> int
    decreases k,
{
    if k <= 0 {
        0
    } else {
        fsum(pairs, k - 1) + pairs[k - 1].folded.len + 1
    }
}

/// Bytes of the raw arena that a name takes.
pub open spec fn raw_cost(p: NamePair) -> int {
    if shared(p) {
        0
    } else {
        p.raw.len + 1
    }
}

/// Bytes of the raw arena that the first `k` names take.
pub open spec fn rsum(pairs: Seq<NamePair>, k: int) -> int
    decreases k,
{
    if k <= 0 {
        0
    } else {
        rsum(pairs, k - 1) + raw_cost(pairs[k - 1])
    }
}

/// Bytes of both arenas that the unused ones among the first `k` names take.
pub open spec fn dead_sum(pairs: Seq<NamePair>, refs: Seq<u32>, k: int) -> int
    decreases k,
{
    if k <= 0 {
        0
    } else {
        dead_sum(pairs, refs, k - 1) + if refs[k - 1] == 0 {
            pairs[k - 1].folded.len + 1 + raw_cost(pairs[k - 1])
        } else {
            0
        }
    }
}

/// The raw bytes of a name.
pub open spec fn raw_in(pairs: Seq<NamePair>, raw: Seq<u8>, folded: Seq<u8>, id: int) -> Seq<u8> {
    let r = pairs[id].raw;
    if shared(pairs[id]) {
        folded.subrange(r.off - RAW_IN_FOLDED, r.off - RAW_IN_FOLDED + r.len)
    } else {
        raw.subrange(r.off as int, r.off + r.len)
    }
}

/// The folded bytes of a name.
pub open spec fn folded_in(pairs: Seq<NamePair>, folded: Seq<u8>, id: int) -> Seq<u8> {
    let f = pairs[id].folded;
    folded.subrange(f.off as int, f.off + f.len)
}

/// A name lies inside the arenas.
pub open spec fn in_arena(pairs: Seq<NamePair>, raw: Seq<u8>, folded: Seq<u8>, id: int) -> bool {
    &&& 0 <= id < pairs.len()
    &&& if shared(pairs[id]) {
        pairs[id].raw.off - RAW_IN_FOLDED + pairs[id].raw.len <= folded.len()
    } else {
        pairs[id].raw.off + pairs[id].raw.len <= raw.len()
    }
}

/// The name at `i` lies where the names before it end, and a NUL follows it.
pub open spec fn placed(pairs: Seq<NamePair>, raw: Seq<u8>, folded: Seq<u8>, i: int) -> bool {
    let p = pairs[i];
    &&& p.folded.off == fsum(pairs, i)
    &&& folded[p.folded.off + p.folded.len] == 0
    &&& if shared(p) {
        p.raw.off == p.folded.off + RAW_IN_FOLDED && p.raw.len == p.folded.len
    } else {
        p.raw.off == rsum(pairs, i) && raw[p.raw.off + p.raw.len] == 0
    }
}

/// The names fill the arenas in order.
pub open spec fn laid_out(pairs: Seq<NamePair>, raw: Seq<u8>, folded: Seq<u8>) -> bool {
    &&& folded.len() == fsum(pairs, pairs.len() as int)
    &&& raw.len() == rsum(pairs, pairs.len() as int)
    &&& folded.len() < RAW_IN_FOLDED
    &&& raw.len() < RAW_IN_FOLDED
    &&& forall|i: int| 0 <= i < pairs.len() ==> #[trigger] placed(pairs, raw, folded, i)
}

proof fn lemma_sums_grow(pairs: Seq<NamePair>, i: int, j: int)
    requires
        0 <= i <= j,
    ensures
        0 <= fsum(pairs, i) <= fsum(pairs, j),
        0 <= rsum(pairs, i) <= rsum(pairs, j),
    decreases j,
{
    if i < j {
        lemma_sums_grow(pairs, i, j - 1);
    } else if j > 0 {
        lemma_sums_grow(pairs, j - 1, j - 1);
    }
}

proof fn lemma_sums_prefix(a: Seq<NamePair>, b: Seq<NamePair>, k: int)
    requires
        0 <= k <= a.len(),
        k <= b.len(),
        forall|i: int| 0 <= i < k ==> a[i] == b[i],
    ensures
        fsum(a, k) == fsum(b, k),
        rsum(a, k) == rsum(b, k),
    decreases k,
{
    if k > 0 {
        lemma_sums_prefix(a, b, k - 1);
    }
}

proof fn lemma_dead_bound(pairs: Seq<NamePair>, refs: Seq<u32>, k: int)
    requires
        0 <= k,
    ensures
        0 <= dead_sum(pairs, refs, k) <= fsum(pairs, k) + rsum(pairs, k),
    decreases k,
{
    if k > 0 {
        lemma_dead_bound(pairs, refs, k - 1);
    }
}

proof fn lemma_dead_same(
    a: Seq<NamePair>,
    ra: Seq<u32>,
    b: Seq<NamePair>,
    rb: Seq<u32>,
    k: int,
)
    requires
        0 <= k,
        forall|i: int| 0 <= i < k ==> a[i] == b[i] && (ra[i] == 0 <==> rb[i] == 0),
    ensures
        dead_sum(a, ra, k) == dead_sum(b, rb, k),
    decreases k,
{
    if k > 0 {
        lemma_dead_same(a, ra, b, rb, k - 1);
    }
}

/// One more unused name.
proof fn lemma_dead_more(pairs: Seq<NamePair>, refs: Seq<u32>, i: int, k: int)
    requires
        0 <= i < k <= refs.len(),
        refs[i] != 0,
    ensures
        dead_sum(pairs, refs.update(i, 0), k) == dead_sum(pairs, refs, k) + pairs[i].folded.len + 1
            + raw_cost(pairs[i]),
        dead_sum(pairs, refs.update(i, 0), k) <= fsum(pairs, k) + rsum(pairs, k),
    decreases k,
{
    lemma_dead_bound(pairs, refs.update(i, 0), k);
    if k - 1 > i {
        lemma_dead_more(pairs, refs, i, k - 1);
    } else {
        lemma_dead_same(pairs, refs, pairs, refs.update(i, 0), k - 1);
    }
}

/// Every name lies inside the arenas.
proof fn lemma_in_arena(pairs: Seq<NamePair>, raw: Seq<u8>, folded: Seq<u8>, id: int)
    requires
        laid_out(pairs, raw, folded),
        0 <= id < pairs.len(),
    ensures
        in_arena(pairs, raw, folded, id),
        pairs[id].folded.off + pairs[id].folded.len + 1 == fsum(pairs, id + 1),
        pairs[id].folded.off + pairs[id].folded.len < folded.len(),
        !shared(pairs[id]) ==> pairs[id].raw.off + pairs[id].raw.len + 1 == rsum(pairs, id + 1),
        !shared(pairs[id]) ==> pairs[id].raw.off + pairs[id].raw.len < raw.len(),
{
    assert(placed(pairs, raw, folded, id));
    lemma_sums_grow(pairs, id + 1, pairs.len() as int);
}

/// The names that the table knows, with their hashes.
#[verifier::external_body]
pub struct NameTable {
    ids: HashTable<NameId>,
}

/// The names in a table, each with the hash it was entered under.
pub uninterp spec fn table_of(t: NameTable) -> Map<NameId, u64>;

/// The hash of bytes on a machine with addresses of `bits` bits.
pub uninterp spec fn fx_hash(bytes: Seq<u8>, bits: u32) -> u64;

/// `FxHasher` over a slice of bytes. It has no seed. Its value depends on the
/// width of an address, and it is that of targets with a wide multiplication.
#[verifier::external_body]
pub(crate) fn hash_bytes(b: &[u8]) -> (h: u64)
    ensures
        h == fx_hash(b@, usize::BITS),
{
    let mut h = FxHasher::default();
    b.hash(&mut h);
    h.finish()
}

/// The raw bytes of a name.
fn raw_bytes_in<'a>(pairs: &'a [NamePair], raw: &'a [u8], folded: &'a [u8], id: NameId) -> (b:
    &'a [u8])
    requires
        in_arena(pairs@, raw@, folded@, id as int),
    ensures
        b@ == raw_in(pairs@, raw@, folded@, id as int),
{
    let r = pairs[id as usize].raw;
    let n_raw = raw.len();
    let n_folded = folded.len();
    if r.off >= RAW_IN_FOLDED {
        let off = (r.off - RAW_IN_FOLDED) as usize;
        vstd::slice::slice_subrange(folded, off, off + r.len as usize)
    } else {
        let off = r.off as usize;
        vstd::slice::slice_subrange(raw, off, off + r.len as usize)
    }
}

/// The name is `name`.
fn name_is(pairs: &[NamePair], raw: &[u8], folded: &[u8], id: NameId, name: &[u8]) -> (r: bool)
    requires
        in_arena(pairs@, raw@, folded@, id as int),
    ensures
        r == (raw_in(pairs@, raw@, folded@, id as int) == name@),
{
    le::same_bytes(raw_bytes_in(pairs, raw, folded, id), name)
}

/// The hash of the name.
fn name_hash(pairs: &[NamePair], raw: &[u8], folded: &[u8], id: NameId) -> (h: u64)
    requires
        in_arena(pairs@, raw@, folded@, id as int),
    ensures
        h == fx_hash(raw_in(pairs@, raw@, folded@, id as int), usize::BITS),
{
    hash_bytes(raw_bytes_in(pairs, raw, folded, id))
}

fn same_id(a: NameId, b: NameId) -> (r: bool)
    ensures
        r == (a == b),
{
    a == b
}

/// Every name in the table lies in the arenas and is entered under its hash.
pub open spec fn hashed(
    table: Map<NameId, u64>,
    pairs: Seq<NamePair>,
    raw: Seq<u8>,
    folded: Seq<u8>,
) -> bool {
    forall|id: NameId| #[trigger]
        table.dom().contains(id) ==> in_arena(pairs, raw, folded, id as int) && table[id]
            == fx_hash(raw_in(pairs, raw, folded, id as int), usize::BITS)
}

/// `HashTable::with_capacity`: an empty table, with room for no more names than
/// have numbers.
#[verifier::external_body]
fn new_table(capacity: usize) -> (t: NameTable)
    requires
        capacity <= u32::MAX,
    ensures
        table_of(t).dom() == Set::<NameId>::empty(),
{
    NameTable { ids: HashTable::with_capacity(capacity) }
}

/// `HashTable::find`: a name in the table with these bytes. Where there is
/// none, no name with these bytes is entered under the hash.
#[verifier::external_body]
fn table_find(
    t: &NameTable,
    hash: u64,
    name: &[u8],
    pairs: &[NamePair],
    raw: &[u8],
    folded: &[u8],
) -> (r: Option<NameId>)
    requires
        forall|id: NameId| #[trigger]
            table_of(*t).dom().contains(id) ==> in_arena(pairs@, raw@, folded@, id as int),
    ensures
        r matches Some(id) ==> table_of(*t).dom().contains(id) && raw_in(
            pairs@,
            raw@,
            folded@,
            id as int,
        ) == name@,
        r is None ==> forall|id: NameId| #[trigger]
            table_of(*t).dom().contains(id) && table_of(*t)[id] == hash ==> raw_in(
                pairs@,
                raw@,
                folded@,
                id as int,
            ) != name@,
{
    t.ids.find(hash, |&id| name_is(pairs, raw, folded, id, name)).copied()
}

/// `HashTable::insert_unique`: the name is entered under the hash. The hashes
/// that the table asks for when it grows are those it was told.
#[verifier::external_body]
fn table_insert(
    t: &mut NameTable,
    hash: u64,
    id: NameId,
    pairs: &[NamePair],
    raw: &[u8],
    folded: &[u8],
)
    requires
        hashed(table_of(*old(t)), pairs@, raw@, folded@),
        in_arena(pairs@, raw@, folded@, id as int),
        hash == fx_hash(raw_in(pairs@, raw@, folded@, id as int), usize::BITS),
        !table_of(*old(t)).dom().contains(id),
    ensures
        table_of(*final(t)) == table_of(*old(t)).insert(id, hash),
{
    t.ids.insert_unique(hash, id, |&i| name_hash(pairs, raw, folded, i));
}

/// `HashTable::find_entry` and `OccupiedEntry::remove`: the name, entered
/// under the hash, leaves the table.
#[verifier::external_body]
fn table_remove(t: &mut NameTable, hash: u64, id: NameId)
    requires
        table_of(*old(t)).dom().contains(id),
        table_of(*old(t))[id] == hash,
    ensures
        table_of(*final(t)) == table_of(*old(t)).remove(id),
{
    if let Ok(entry) = t.ids.find_entry(hash, |&other| same_id(other, id)) {
        entry.remove();
    }
}

/// `HashTable::shrink_to_fit`: the names stay. How much room is left is up to
/// the table, and is not said.
#[verifier::external_body]
fn table_shrink(t: &mut NameTable, pairs: &[NamePair], raw: &[u8], folded: &[u8])
    requires
        hashed(table_of(*old(t)), pairs@, raw@, folded@),
    ensures
        table_of(*final(t)) == table_of(*old(t)),
{
    t.ids.shrink_to_fit(|&i| name_hash(pairs, raw, folded, i));
}

/// `HashTable::len`: the number of names.
#[verifier::external_body]
fn table_len(t: &NameTable) -> (n: usize)
    ensures
        n == table_of(*t).dom().len(),
{
    t.ids.len()
}

/// `HashTable::capacity`: at least the number of names.
#[verifier::external_body]
fn table_capacity(t: &NameTable) -> (n: usize)
    ensures
        n >= table_of(*t).dom().len(),
{
    t.ids.capacity()
}

/// What the store says of its names. An unused name has a count of zero.
#[verifier::ext_equal]
pub ghost struct NameModel {
    /// The name as it is written.
    pub bytes: Seq<Seq<u8>>,
    /// How many entries have the name.
    pub refs: Seq<u32>,
    /// The first of the entries with the name.
    pub heads: Seq<EntryIdx>,
}

impl NameModel {
    /// `id` is a name in use.
    pub open spec fn used(self, id: int) -> bool {
        0 <= id < self.refs.len() && self.refs[id] > 0
    }

    /// `id` is in use and is `name`.
    pub open spec fn is(self, id: int, name: Seq<u8>) -> bool {
        self.used(id) && self.bytes[id] == name
    }
}

/// The interned names.
pub struct NameStore {
    raw: Vec<u8>,
    folded: Vec<u8>,
    pairs: Vec<NamePair>,
    refcount: Vec<u32>,
    head: Vec<EntryIdx>,
    by_bytes: NameTable,
    garbage: usize,
}

/// The compacted form of a store, and where each name has gone.
pub struct CompactedNames {
    raw: Vec<u8>,
    folded: Vec<u8>,
    pairs: Vec<NamePair>,
    refcount: Vec<u32>,
    head: Vec<EntryIdx>,
    remap: Vec<NameId>,
    from: Ghost<Seq<int>>,
}

/// How many of the first `k` names are in use.
pub open spec fn used_before(refs: Seq<u32>, k: int) -> int
    decreases k,
{
    if k <= 0 {
        0
    } else {
        used_before(refs, k - 1) + if refs[k - 1] > 0 {
            1int
        } else {
            0
        }
    }
}

impl NameStore {
    pub closed spec fn model(&self) -> NameModel {
        NameModel {
            bytes: Seq::new(
                self.pairs@.len(),
                |i: int| raw_in(self.pairs@, self.raw@, self.folded@, i),
            ),
            refs: self.refcount@,
            heads: self.head@,
        }
    }

    /// The folded form of a name, as stored.
    pub closed spec fn folded_of(&self, id: int) -> Seq<u8> {
        folded_in(self.pairs@, self.folded@, id)
    }

    /// Where the folded form of a name lies in the folded arena.
    pub closed spec fn folded_at(&self, id: int) -> int {
        self.pairs@[id].folded.off as int
    }

    /// The folded arena.
    pub closed spec fn haystack(&self) -> Seq<u8> {
        self.folded@
    }

    /// Bytes of the raw arena.
    pub closed spec fn raw_len(&self) -> int {
        self.raw@.len() as int
    }

    /// Bytes of both arenas that unused names take.
    pub closed spec fn garbage(&self) -> int {
        self.garbage as int
    }

    pub closed spec fn wf(&self) -> bool {
        &&& self.refcount@.len() == self.pairs@.len()
        &&& self.head@.len() == self.pairs@.len()
        &&& self.pairs@.len() <= NIL
        &&& laid_out(self.pairs@, self.raw@, self.folded@)
        &&& self.garbage == dead_sum(self.pairs@, self.refcount@, self.pairs@.len() as int)
        &&& forall|id: NameId| #[trigger]
            table_of(self.by_bytes).dom().contains(id) <==> self.model().used(id as int)
        &&& hashed(table_of(self.by_bytes), self.pairs@, self.raw@, self.folded@)
        &&& forall|i: int| #[trigger]
            self.model().used(i) ==> self.folded_of(i) == fold::folded(self.model().bytes[i])
        &&& forall|i: int, j: int|
            #![trigger self.model().bytes[i], self.model().bytes[j]]
            self.model().used(i) && self.model().used(j) && self.model().bytes[i]
                == self.model().bytes[j] ==> i == j
    }

    /// What holds of every store.
    pub proof fn lemma_wf(&self)
        requires
            self.wf(),
        ensures
            self.model().bytes.len() == self.model().refs.len(),
            self.model().heads.len() == self.model().refs.len(),
            self.model().refs.len() <= NIL,
            0 <= self.raw_len() < RAW_IN_FOLDED,
            self.haystack().len() < RAW_IN_FOLDED,
            0 <= self.garbage() <= self.raw_len() + self.haystack().len(),
            forall|i: int| #[trigger]
                self.model().used(i) ==> self.folded_of(i) == fold::folded(self.model().bytes[i]),
            forall|i: int, j: int|
                #![trigger self.model().bytes[i], self.model().bytes[j]]
                self.model().used(i) && self.model().used(j) && self.model().bytes[i]
                    == self.model().bytes[j] ==> i == j,
            forall|i: int|
                0 <= i < self.model().refs.len() ==> {
                    &&& 0 <= #[trigger] self.folded_at(i)
                    &&& self.folded_at(i) + self.folded_of(i).len() < self.haystack().len()
                    &&& self.haystack().subrange(
                        self.folded_at(i),
                        self.folded_at(i) + self.folded_of(i).len(),
                    ) == self.folded_of(i)
                    &&& self.haystack()[self.folded_at(i) + self.folded_of(i).len()] == 0
                },
            forall|i: int| 0 <= i < self.model().refs.len() ==> (#[trigger] self.model().bytes[i]).len() <= MAX_NAME,
    {
        lemma_dead_bound(self.pairs@, self.refcount@, self.pairs@.len() as int);
        assert forall|i: int| 0 <= i < self.model().refs.len() implies {
            &&& 0 <= #[trigger] self.folded_at(i)
            &&& self.folded_at(i) + self.folded_of(i).len() < self.haystack().len()
            &&& self.haystack().subrange(
                self.folded_at(i),
                self.folded_at(i) + self.folded_of(i).len(),
            ) == self.folded_of(i)
            &&& self.haystack()[self.folded_at(i) + self.folded_of(i).len()] == 0
        } by {
            lemma_in_arena(self.pairs@, self.raw@, self.folded@, i);
            assert(placed(self.pairs@, self.raw@, self.folded@, i));
        }
        assert forall|i: int| 0 <= i < self.model().refs.len() implies (
        #[trigger] self.model().bytes[i]).len() <= MAX_NAME by {
            lemma_in_arena(self.pairs@, self.raw@, self.folded@, i);
        }
    }

    /// Some name in use is `name`.
    pub open spec fn knows(&self, name: Seq<u8>) -> bool {
        exists|id: int| #[trigger] self.model().is(id, name)
    }

    /// There is room for one more name, which is `name`.
    pub open spec fn room(&self, name: Seq<u8>) -> bool {
        &&& name.len() <= MAX_NAME
        &&& fold::folded(name).len() <= MAX_NAME
        &&& self.model().refs.len() < NIL
        &&& self.raw_len() + name.len() + 1 < RAW_IN_FOLDED
        &&& self.haystack().len() + fold::folded(name).len() + 1 < RAW_IN_FOLDED
    }

    /// A store without names.
    pub fn new() -> (s: NameStore)
        ensures
            s.wf(),
            s.model().refs.len() == 0,
            s.raw_len() == 0,
            s.haystack().len() == 0,
            s.garbage() == 0,
    {
        NameStore {
            raw: Vec::new(),
            folded: Vec::new(),
            pairs: Vec::new(),
            refcount: Vec::new(),
            head: Vec::new(),
            by_bytes: new_table(0),
            garbage: 0,
        }
    }

    /// The number of the name, which one more entry has from now on.
    pub fn intern(&mut self, name: &[u8]) -> (id: NameId)
        requires
            old(self).wf(),
            old(self).knows(name@) || old(self).room(name@),
            forall|i: int|
                0 <= i < old(self).model().refs.len() ==> (#[trigger] old(self).model().refs[i])
                    < u32::MAX,
        ensures
            final(self).wf(),
            final(self).garbage() == old(self).garbage(),
            old(self).model().is(id as int, name@) ==> final(self).model() == (NameModel {
                refs: old(self).model().refs.update(
                    id as int,
                    (old(self).model().refs[id as int] + 1) as u32,
                ),
                ..old(self).model()
            }) && final(self).raw_len() == old(self).raw_len() && final(self).haystack() == old(
                self,
            ).haystack(),
            !old(self).model().is(id as int, name@) ==> {
                &&& !old(self).knows(name@)
                &&& id == old(self).model().refs.len()
                &&& final(self).model() == (NameModel {
                    bytes: old(self).model().bytes.push(name@),
                    refs: old(self).model().refs.push(1),
                    heads: old(self).model().heads.push(NIL),
                })
                &&& old(self).raw_len() <= final(self).raw_len() <= old(self).raw_len() + name@.len()
                    + 1
                &&& final(self).haystack().len() == old(self).haystack().len() + fold::folded(
                    name@,
                ).len() + 1
            },
            final(self).model().is(id as int, name@),
            interned(old(self).model(), final(self).model(), name@, id as int),
    {
        let hash = hash_bytes(name);
        let ghost m0 = self.model();
        match table_find(
            &self.by_bytes,
            hash,
            name,
            self.pairs.as_slice(),
            self.raw.as_slice(),
            self.folded.as_slice(),
        ) {
            Some(id) => {
                proof {
                    assert(m0.used(id as int));
                    assert(m0.is(id as int, name@));
                    lemma_dead_same(
                        self.pairs@,
                        self.refcount@,
                        self.pairs@,
                        self.refcount@.update(id as int, (self.refcount@[id as int] + 1) as u32),
                        self.pairs@.len() as int,
                    );
                    assert(m0.refs[id as int] < u32::MAX);
                }
                let i = id as usize;
                self.refcount[i] = self.refcount[i] + 1;
                proof {
                    let m1 = self.model();
                    assert(m1.bytes =~= m0.bytes);
                    assert forall|k: int| m1.used(k) == m0.used(k) by {}
                    assert(m1.is(id as int, name@));
                }
                id
            },
            None => {
                proof {
                    if self.knows(name@) {
                        let k = choose|k: int| #[trigger] m0.is(k, name@);
                        assert(table_of(self.by_bytes).dom().contains(k as NameId));
                    }
                }
                let folded_bytes = fold::fold(name);
                self.add(name, folded_bytes.as_slice(), hash)
            },
        }
    }

    /// Enters a name that is not in use yet.
    fn add(&mut self, name: &[u8], folded_bytes: &[u8], hash: u64) -> (id: NameId)
        requires
            old(self).wf(),
            !old(self).knows(name@),
            old(self).room(name@),
            folded_bytes@ == fold::folded(name@),
            hash == fx_hash(name@, usize::BITS),
        ensures
            final(self).wf(),
            final(self).garbage() == old(self).garbage(),
            id == old(self).model().refs.len(),
            final(self).model() == (NameModel {
                bytes: old(self).model().bytes.push(name@),
                refs: old(self).model().refs.push(1),
                heads: old(self).model().heads.push(NIL),
            }),
            old(self).raw_len() <= final(self).raw_len() <= old(self).raw_len() + name@.len() + 1,
            final(self).haystack().len() == old(self).haystack().len() + fold::folded(
                name@,
            ).len() + 1,
            final(self).model().is(id as int, name@),
    {
        let ghost m0 = self.model();
        let ghost pairs0 = self.pairs@;
        let ghost raw0 = self.raw@;
        let ghost folded0 = self.folded@;
        let ghost n = pairs0.len() as int;
        let folded = push_name(&mut self.folded, folded_bytes);
        let raw = if le::same_bytes(folded_bytes, name) {
            NameRef { off: folded.off + RAW_IN_FOLDED, len: folded.len }
        } else {
            push_name(&mut self.raw, name)
        };
        let id = self.pairs.len() as NameId;
        let pair = NamePair { raw, folded };
        self.pairs.push(pair);
        self.refcount.push(1);
        self.head.push(NIL);
        proof {
            lemma_pushed(pairs0, raw0, folded0, pair, self.raw@, self.folded@);
            assert(raw_in(self.pairs@, self.raw@, self.folded@, n) =~= name@);
            assert(folded_in(self.pairs@, self.folded@, n) =~= folded_bytes@);
            assert(in_arena(self.pairs@, self.raw@, self.folded@, n)) by {
                lemma_in_arena(self.pairs@, self.raw@, self.folded@, n);
            }
            lemma_dead_same(
                pairs0,
                m0.refs,
                self.pairs@,
                self.refcount@,
                n,
            );
            assert forall|i: NameId| #[trigger] table_of(self.by_bytes).dom().contains(i) implies
                in_arena(self.pairs@, self.raw@, self.folded@, i as int) && table_of(
                self.by_bytes,
            )[i] == fx_hash(
                raw_in(self.pairs@, self.raw@, self.folded@, i as int),
                usize::BITS,
            ) by {
                assert(m0.used(i as int));
                lemma_in_arena(self.pairs@, self.raw@, self.folded@, i as int);
            }
            assert(!table_of(self.by_bytes).dom().contains(id)) by {
                if table_of(self.by_bytes).dom().contains(id) {
                    assert(m0.used(id as int));
                }
            }
        }
        table_insert(
            &mut self.by_bytes,
            hash,
            id,
            self.pairs.as_slice(),
            self.raw.as_slice(),
            self.folded.as_slice(),
        );
        proof {
            let m1 = self.model();
            assert(m1.bytes =~= m0.bytes.push(name@));
            assert forall|k: int| #[trigger] m1.used(k) == (m0.used(k) || k == n) by {}
            assert forall|i: NameId| #[trigger]
                table_of(self.by_bytes).dom().contains(i) <==> m1.used(i as int) by {
                assert(m1.used(i as int) == (m0.used(i as int) || i == n));
            }
            assert forall|i: int| #[trigger] m1.used(i) implies self.folded_of(i) == fold::folded(
                m1.bytes[i],
            ) by {
                if i < n {
                    assert(m0.used(i));
                    assert(folded_in(pairs0, folded0, i) == fold::folded(m0.bytes[i]));
                }
            }
            assert forall|i: int, j: int|
                #![trigger m1.bytes[i], m1.bytes[j]]
                m1.used(i) && m1.used(j) && m1.bytes[i] == m1.bytes[j] implies i == j by {
                if i < n && j < n {
                    assert(m0.used(i) && m0.used(j));
                    assert(m0.bytes[i] == m0.bytes[j]);
                } else if i < n {
                    assert(m0.is(i, name@));
                } else if j < n {
                    assert(m0.is(j, name@));
                }
            }
            assert(m1.is(id as int, name@));
        }
        id
    }

    /// One entry fewer has the name. When none is left, its bytes are cleared.
    pub fn release(&mut self, id: NameId)
        requires
            old(self).wf(),
            old(self).model().used(id as int),
        ensures
            final(self).wf(),
            final(self).model().heads == old(self).model().heads,
            final(self).model().refs == old(self).model().refs.update(
                id as int,
                (old(self).model().refs[id as int] - 1) as u32,
            ),
            final(self).model().bytes.len() == old(self).model().bytes.len(),
            forall|k: int|
                0 <= k < old(self).model().bytes.len() && (k != id || final(self).model().used(k))
                    ==> #[trigger] final(self).model().bytes[k] == old(self).model().bytes[k],
            final(self).raw_len() == old(self).raw_len(),
            final(self).haystack().len() == old(self).haystack().len(),
            released(old(self).model(), final(self).model(), id as int),
    {
        let i = id as usize;
        let ghost m0 = self.model();
        let ghost pairs = self.pairs@;
        let ghost raw0 = self.raw@;
        let ghost folded0 = self.folded@;
        let ghost refs0 = self.refcount@;
        let ghost n = pairs.len() as int;
        let count = self.refcount[i] - 1;
        if count > 0 {
            self.refcount[i] = count;
            proof {
                lemma_dead_same(pairs, refs0, pairs, self.refcount@, n);
                let m1 = self.model();
                assert(m1.bytes =~= m0.bytes);
                assert forall|k: int| m1.used(k) == m0.used(k) by {}
            }
            return ;
        }
        proof {
            lemma_in_arena(pairs, raw0, folded0, id as int);
            assert(table_of(self.by_bytes).dom().contains(id));
        }
        let hash = name_hash(
            self.pairs.as_slice(),
            self.raw.as_slice(),
            self.folded.as_slice(),
            id,
        );
        table_remove(&mut self.by_bytes, hash, id);
        self.refcount[i] = 0;
        let pair = self.pairs[i];
        proof {
            lemma_dead_more(pairs, refs0, id as int, n);
            assert(self.raw.len() == raw0.len() && self.folded.len() == folded0.len());
        }
        clear_span(&mut self.folded, pair.folded.off as usize, pair.folded.len as usize);
        let mut freed = pair.folded.len as usize + 1;
        if pair.raw.off < RAW_IN_FOLDED {
            clear_span(&mut self.raw, pair.raw.off as usize, pair.raw.len as usize);
            freed = freed + pair.raw.len as usize + 1;
        }
        self.garbage = self.garbage + freed;
        proof {
            lemma_cleared(pairs, raw0, folded0, id as int, self.raw@, self.folded@);
            let m1 = self.model();
            assert(self.refcount@ =~= refs0.update(id as int, 0));
            assert forall|k: int| #[trigger] m1.used(k) == (m0.used(k) && k != id) by {}
            assert forall|k: NameId| #[trigger]
                table_of(self.by_bytes).dom().contains(k) <==> m1.used(k as int) by {
                assert(m1.used(k as int) == (m0.used(k as int) && k != id));
            }
            assert forall|k: NameId| #[trigger] table_of(self.by_bytes).dom().contains(k) implies
                in_arena(pairs, self.raw@, self.folded@, k as int) && table_of(self.by_bytes)[k]
                == fx_hash(raw_in(pairs, self.raw@, self.folded@, k as int), usize::BITS) by {
                assert(m1.used(k as int));
                assert(m0.used(k as int));
            }
            assert forall|k: int| #[trigger] m1.used(k) implies self.folded_of(k) == fold::folded(
                m1.bytes[k],
            ) by {
                assert(m0.used(k));
                assert(folded_in(pairs, folded0, k) == fold::folded(m0.bytes[k]));
            }
            assert forall|a: int, b: int|
                #![trigger m1.bytes[a], m1.bytes[b]]
                m1.used(a) && m1.used(b) && m1.bytes[a] == m1.bytes[b] implies a == b by {
                assert(m0.bytes[a] == m0.bytes[b]);
            }
        }
    }

    /// The raw bytes of a name.
    pub fn raw_bytes(&self, id: NameId) -> (b: &[u8])
        requires
            self.wf(),
            id < self.model().refs.len(),
        ensures
            b@ == self.model().bytes[id as int],
    {
        proof {
            lemma_in_arena(self.pairs@, self.raw@, self.folded@, id as int);
        }
        raw_bytes_in(self.pairs.as_slice(), self.raw.as_slice(), self.folded.as_slice(), id)
    }

    /// The folded bytes of a name.
    pub fn folded_bytes_of(&self, id: NameId) -> (b: &[u8])
        requires
            self.wf(),
            id < self.model().refs.len(),
        ensures
            b@ == self.folded_of(id as int),
    {
        proof {
            lemma_in_arena(self.pairs@, self.raw@, self.folded@, id as int);
        }
        let f = self.pairs[id as usize].folded;
        let off = f.off as usize;
        vstd::slice::slice_subrange(self.folded.as_slice(), off, off + f.len as usize)
    }

    /// The folded arena, in which each name is followed by a NUL.
    pub fn folded_haystack(&self) -> (b: &[u8])
        ensures
            b@ == self.haystack(),
    {
        self.folded.as_slice()
    }

    /// How many names there are, unused ones included.
    pub fn ids(&self) -> (n: usize)
        requires
            self.wf(),
        ensures
            n == self.model().refs.len(),
    {
        self.pairs.len()
    }

    /// The first of the entries with the name.
    pub fn chain_head(&self, id: NameId) -> (e: EntryIdx)
        requires
            self.wf(),
            id < self.model().refs.len(),
        ensures
            e == self.model().heads[id as int],
    {
        self.head[id as usize]
    }

    pub fn set_chain_head(&mut self, id: NameId, e: EntryIdx)
        requires
            old(self).wf(),
            id < old(self).model().refs.len(),
        ensures
            final(self).wf(),
            final(self).model() == (NameModel {
                heads: old(self).model().heads.update(id as int, e),
                ..old(self).model()
            }),
            final(self).raw_len() == old(self).raw_len(),
            final(self).haystack() == old(self).haystack(),
            final(self).garbage() == old(self).garbage(),
    {
        self.head[id as usize] = e;
        proof {
            let m0 = old(self).model();
            let m1 = self.model();
            assert(m1.bytes =~= m0.bytes);
            assert forall|k: int| m1.used(k) == m0.used(k) by {}
        }
    }

    /// Unused names take more than a quarter of the arenas, which are more
    /// than 8 KiB.
    pub fn should_compact(&self) -> (r: bool)
        requires
            self.wf(),
        ensures
            r == (self.raw_len() + self.haystack().len() > 8192 && self.garbage() * 4
                > self.raw_len() + self.haystack().len()),
    {
        let total = self.raw.len() + self.folded.len();
        total > 8192 && self.garbage > total / 4
    }

    /// The compacted form of the store: the names in use, in order.
    pub fn plan_compact(&self) -> (c: CompactedNames)
        requires
            self.wf(),
        ensures
            c.plans(self.model()),
    {
        let n = self.pairs.len();
        let from: Ghost<Seq<int>> = Ghost(Seq::<int>::empty());
        let mut c = CompactedNames {
            raw: Vec::new(),
            folded: Vec::new(),
            pairs: Vec::new(),
            refcount: Vec::new(),
            head: Vec::new(),
            remap: Vec::new(),
            from,
        };
        let ghost m = self.model();
        let mut i: usize = 0;
        while i < n
            invariant
                self.wf(),
                m == self.model(),
                n == self.pairs@.len(),
                i <= n,
                c.plans_upto(m, i as int),
                c.raw@.len() <= rsum(self.pairs@, i as int),
                c.folded@.len() <= fsum(self.pairs@, i as int),
            decreases n - i,
        {
            let ghost before = c;
            let count = self.refcount[i];
            proof {
                lemma_in_arena(self.pairs@, self.raw@, self.folded@, i as int);
                lemma_sums_grow(self.pairs@, i + 1, n as int);
                lemma_used_bound(m.refs, i as int);
                assert(placed(self.pairs@, self.raw@, self.folded@, i as int));
            }
            if count == 0 {
                c.remap.push(NIL);
                proof {
                    assert forall|k: int| 0 <= k < i + 1 implies #[trigger] c.moved(m, k) by {
                        if k < i {
                            assert(before.moved(m, k));
                        }
                    }
                    assert forall|k: int| 0 <= k < c.pairs@.len() implies #[trigger] c.came(
                        m,
                        k,
                        i + 1,
                    ) by {
                        assert(before.came(m, k, i as int));
                    }
                }
            } else {
                let pair = self.pairs[i];
                let folded_name = vstd::slice::slice_subrange(
                    self.folded.as_slice(),
                    pair.folded.off as usize,
                    pair.folded.off as usize + pair.folded.len as usize,
                );
                let folded = push_name(&mut c.folded, folded_name);
                let raw = if pair.raw.off >= RAW_IN_FOLDED {
                    NameRef { off: folded.off + RAW_IN_FOLDED, len: folded.len }
                } else {
                    let name = vstd::slice::slice_subrange(
                        self.raw.as_slice(),
                        pair.raw.off as usize,
                        pair.raw.off as usize + pair.raw.len as usize,
                    );
                    push_name(&mut c.raw, name)
                };
                let ghost moved = NamePair { raw, folded };
                proof {
                    lemma_pushed(
                        before.pairs@,
                        before.raw@,
                        before.folded@,
                        moved,
                        c.raw@,
                        c.folded@,
                    );
                }
                let id = c.pairs.len() as NameId;
                c.remap.push(id);
                c.pairs.push(NamePair { raw, folded });
                c.refcount.push(count);
                c.head.push(self.head[i]);
                proof {
                    c.from@ = before.from@.push(i as int);
                    let k0 = before.pairs@.len() as int;
                    assert(raw_in(c.pairs@, c.raw@, c.folded@, k0) =~= m.bytes[i as int]);
                    assert(folded_in(c.pairs@, c.folded@, k0) =~= self.folded_of(i as int));
                    assert(m.used(i as int));
                    assert(c.moved(m, i as int));
                    assert forall|k: int| 0 <= k < i + 1 implies #[trigger] c.moved(m, k) by {
                        if k < i {
                            assert(before.moved(m, k));
                            if m.used(k) {
                                lemma_used_grow(m.refs, k + 1, i as int);
                                let r = before.remap@[k] as int;
                                assert(raw_in(c.pairs@, c.raw@, c.folded@, r) == raw_in(
                                    before.pairs@,
                                    before.raw@,
                                    before.folded@,
                                    r,
                                ));
                            }
                        }
                    }
                    assert forall|k: int| 0 <= k < c.pairs@.len() implies #[trigger] c.came(
                        m,
                        k,
                        i + 1,
                    ) by {
                        if k < k0 {
                            assert(before.came(m, k, i as int));
                        }
                    }
                }
            }
            i = i + 1;
        }
        c
    }

    /// Takes on the compacted form that was made of this store; returns where
    /// each name has gone.
    pub fn install_compacted(&mut self, c: CompactedNames) -> (remap: Vec<NameId>)
        requires
            old(self).wf(),
            c.plans(old(self).model()),
        ensures
            final(self).wf(),
            compacted(old(self).model(), final(self).model(), remap@),
            final(self).garbage() == 0,
    {
        let ghost m0 = self.model();
        let n = c.pairs.len();
        let mut table = new_table(n);
        let pairs = c.pairs;
        let raw = c.raw;
        let folded = c.folded;
        let mut i: usize = 0;
        while i < n
            invariant
                i <= n,
                n == pairs@.len(),
                n <= NIL,
                laid_out(pairs@, raw@, folded@),
                hashed(table_of(table), pairs@, raw@, folded@),
                forall|id: NameId| #[trigger] table_of(table).dom().contains(id) <==> id < i,
            decreases n - i,
        {
            let id = i as NameId;
            proof {
                lemma_in_arena(pairs@, raw@, folded@, i as int);
            }
            let hash = name_hash(pairs.as_slice(), raw.as_slice(), folded.as_slice(), id);
            let ghost before = table_of(table);
            table_insert(
                &mut table,
                hash,
                id,
                pairs.as_slice(),
                raw.as_slice(),
                folded.as_slice(),
            );
            proof {
                assert forall|k: NameId| #[trigger] table_of(table).dom().contains(k) implies
                    in_arena(pairs@, raw@, folded@, k as int) && table_of(table)[k] == fx_hash(
                    raw_in(pairs@, raw@, folded@, k as int),
                    usize::BITS,
                ) by {
                    assert(k == id || before.dom().contains(k));
                }
            }
            i = i + 1;
        }
        self.raw = raw;
        self.folded = folded;
        self.pairs = pairs;
        self.refcount = c.refcount;
        self.head = c.head;
        self.garbage = 0;
        self.by_bytes = table;
        proof {
            let m1 = self.model();
            assert forall|k: int| 0 <= k < n implies #[trigger] m1.used(k) && 0 <= c.from@[k]
                < m0.refs.len() && m0.used(c.from@[k]) && m1.bytes[k] == m0.bytes[c.from@[k]]
                && c.remap@[c.from@[k]] == k by {
                assert(c.came(m0, k, m0.refs.len() as int));
                assert(c.moved(m0, c.from@[k]));
            }
            assert forall|k: int| #[trigger] m1.used(k) implies self.folded_of(k) == fold::folded(
                m1.bytes[k],
            ) by {
                assert(c.came(m0, k, m0.refs.len() as int));
                assert(c.moved(m0, c.from@[k]));
            }
            assert forall|a: int, b: int|
                #![trigger m1.bytes[a], m1.bytes[b]]
                m1.used(a) && m1.used(b) && m1.bytes[a] == m1.bytes[b] implies a == b by {
                assert(m0.bytes[c.from@[a]] == m0.bytes[c.from@[b]]);
            }
            assert forall|k: int| 0 <= k < n implies self.refcount@[k] > 0 by {
                assert(m1.used(k));
            }
            lemma_dead_none(self.pairs@, self.refcount@, n as int);
            assert forall|k: NameId| #[trigger]
                table_of(self.by_bytes).dom().contains(k) <==> m1.used(k as int) by {
                if k < n {
                    assert(m1.used(k as int));
                }
            }
            assert forall|k: int| 0 <= k < m0.refs.len() implies #[trigger] went(
                m0,
                m1,
                c.remap@,
                k,
            ) by {
                assert(c.moved(m0, k));
                if m0.used(k) {
                    lemma_used_grow(m0.refs, k + 1, m0.refs.len() as int);
                }
            }
        }
        c.remap
    }

    /// Bytes of the tables beside the arenas.
    pub fn tables_mem(&self) -> (c: ComponentBytes)
        requires
            self.wf(),
        ensures
            c.used == self.model().refs.len() * 24 + self.known() * 5,
            c.allocated >= c.used,
    {
        proof {
            self.lemma_known();
        }
        let buckets = buckets_for(table_capacity(&self.by_bytes)) * 5;
        let intern = ComponentBytes {
            used: table_len(&self.by_bytes) as u64 * 5,
            allocated: if buckets > u64::MAX as u128 {
                u64::MAX
            } else {
                buckets as u64
            },
        };
        ComponentBytes::of_vec(&self.pairs, 16).plus(ComponentBytes::of_vec(&self.refcount, 4)).plus(
            ComponentBytes::of_vec(&self.head, 4),
        ).plus(intern)
    }

    /// How many names are in use.
    pub closed spec fn known(&self) -> nat {
        table_of(self.by_bytes).dom().len()
    }

    proof fn lemma_known(&self)
        requires
            self.wf(),
        ensures
            self.known() <= NIL,
    {
        let ids = table_of(self.by_bytes).dom();
        let n = self.model().refs.len() as int;
        let whole = vstd::set_lib::set_int_range(0, n);
        let f = |x: int| x as NameId;
        vstd::set_lib::lemma_int_range(0, n);
        vstd::set_lib::lemma_map_size_bound(whole, whole.map(f), f);
        assert(ids.subset_of(whole.map(f))) by {
            assert forall|id: NameId| ids.contains(id) implies whole.map(f).contains(id) by {
                assert(self.model().used(id as int));
                assert(whole.contains(id as int) && f(id as int) == id);
            }
        }
        vstd::set_lib::lemma_len_subset(ids, whole.map(f));
    }

    /// Bytes of the raw arena.
    pub fn raw_mem(&self) -> (c: ComponentBytes)
        requires
            self.wf(),
        ensures
            c.used == self.raw_len(),
            c.allocated >= c.used,
    {
        ComponentBytes::of_vec(&self.raw, 1)
    }

    /// Bytes of the folded arena.
    pub fn folded_mem(&self) -> (c: ComponentBytes)
        requires
            self.wf(),
        ensures
            c.used == self.haystack().len(),
            c.allocated >= c.used,
    {
        ComponentBytes::of_vec(&self.folded, 1)
    }

    /// Gives back most of the spare capacity.
    pub fn shrink_with_headroom(&mut self)
        requires
            old(self).wf(),
        ensures
            final(self).wf(),
            final(self).model() == old(self).model(),
            final(self).raw_len() == old(self).raw_len(),
            final(self).haystack() == old(self).haystack(),
            final(self).garbage() == old(self).garbage(),
            final(self).known() == old(self).known(),
    {
        shrink_vec(&mut self.raw);
        shrink_vec(&mut self.folded);
        shrink_vec(&mut self.pairs);
        shrink_vec(&mut self.refcount);
        shrink_vec(&mut self.head);
        table_shrink(
            &mut self.by_bytes,
            self.pairs.as_slice(),
            self.raw.as_slice(),
            self.folded.as_slice(),
        );
        proof {
            assert(self.model().bytes =~= old(self).model().bytes);
        }
    }
}

/// The names after one more entry has a name: it keeps its number, or gets the
/// next one.
pub open spec fn interned(m0: NameModel, m1: NameModel, name: Seq<u8>, id: int) -> bool {
    if m0.is(id, name) {
        m1 == (NameModel { refs: m0.refs.update(id, (m0.refs[id] + 1) as u32), ..m0 })
    } else {
        &&& forall|k: int| !#[trigger] m0.is(k, name)
        &&& id == m0.refs.len()
        &&& m1 == (NameModel {
            bytes: m0.bytes.push(name),
            refs: m0.refs.push(1),
            heads: m0.heads.push(NIL),
        })
    }
}

/// The names after one entry fewer has a name.
pub open spec fn released(m0: NameModel, m1: NameModel, id: int) -> bool {
    &&& m1.refs == m0.refs.update(id, (m0.refs[id] - 1) as u32)
    &&& m1.bytes.len() == m0.bytes.len()
    &&& forall|k: int|
        0 <= k < m0.bytes.len() && (k != id || m1.used(k)) ==> #[trigger] m1.bytes[k]
            == m0.bytes[k]
}

/// Two names get one number exactly if they are equal, and a name stays what
/// it is, and folded as it was, when another one is interned.
pub proof fn law_equal_names_are_one(
    s0: &NameStore,
    s1: &NameStore,
    s2: &NameStore,
    a: Seq<u8>,
    b: Seq<u8>,
    ia: int,
    ib: int,
)
    requires
        s0.wf(),
        s1.wf(),
        s2.wf(),
        interned(s0.model(), s1.model(), a, ia),
        interned(s1.model(), s2.model(), b, ib),
        s0.model().is(ia, a) ==> s0.model().refs[ia] < u32::MAX,
        s1.model().is(ib, b) ==> s1.model().refs[ib] < u32::MAX,
    ensures
        ia == ib <==> a == b,
        s1.model().is(ia, a),
        s2.model().is(ia, a),
        s2.model().is(ib, b),
        s1.folded_of(ia) == fold::folded(a),
        s2.folded_of(ia) == fold::folded(a),
{
    s0.lemma_wf();
    s1.lemma_wf();
    s2.lemma_wf();
    assert(s1.model().is(ia, a));
    if a == b {
        assert(s1.model().is(ib, b)) by {
            if !s1.model().is(ib, b) {
                assert(!s1.model().is(ia, b));
            }
        }
        assert(s1.model().bytes[ia] == s1.model().bytes[ib]);
    }
    assert(s2.model().is(ia, a));
    assert(s2.model().is(ib, b));
}

/// When the last entry with a name is gone, the name is interned anew under a
/// number that was never given before: numbers are given upwards.
pub proof fn law_freed_name_gets_a_new_number(
    s0: &NameStore,
    s1: &NameStore,
    s2: &NameStore,
    name: Seq<u8>,
    id: int,
    again: int,
)
    requires
        s0.wf(),
        s1.wf(),
        s2.wf(),
        s0.model().is(id, name),
        s0.model().refs[id] == 1,
        released(s0.model(), s1.model(), id),
        interned(s1.model(), s2.model(), name, again),
    ensures
        again == s0.model().refs.len(),
        again != id,
        s2.model().refs.len() == again + 1,
{
    s0.lemma_wf();
    s1.lemma_wf();
    assert forall|k: int| !#[trigger] s1.model().is(k, name) by {
        if s1.model().is(k, name) {
            assert(k != id);
            assert(s0.model().used(k));
            assert(s1.model().bytes[k] == s0.model().bytes[k]);
            assert(s0.model().bytes[k] == s0.model().bytes[id]);
        }
    }
}

/// The folded names lie in the order of their numbers, one behind the other.
pub proof fn law_folded_names_ascend(s: &NameStore, i: int, j: int)
    requires
        s.wf(),
        0 <= i < j < s.model().refs.len(),
    ensures
        s.folded_at(i) + s.folded_of(i).len() < s.folded_at(j),
{
    lemma_in_arena(s.pairs@, s.raw@, s.folded@, i);
    lemma_in_arena(s.pairs@, s.raw@, s.folded@, j);
    assert(placed(s.pairs@, s.raw@, s.folded@, j));
    lemma_sums_grow(s.pairs@, i + 1, j);
}

/// The name `k` has gone where `remap` says, with its bytes, count and head.
pub open spec fn went(m0: NameModel, m1: NameModel, remap: Seq<NameId>, k: int) -> bool {
    if m0.used(k) {
        &&& remap[k] < m1.refs.len()
        &&& m1.bytes[remap[k] as int] == m0.bytes[k]
        &&& m1.refs[remap[k] as int] == m0.refs[k]
        &&& m1.heads[remap[k] as int] == m0.heads[k]
        &&& remap[k] == used_before(m0.refs, k)
    } else {
        remap[k] == NIL
    }
}

/// `m1` holds the names of `m0` that are in use, in order, and nothing else.
pub open spec fn compacted(m0: NameModel, m1: NameModel, remap: Seq<NameId>) -> bool {
    &&& remap.len() == m0.refs.len()
    &&& m1.refs.len() == used_before(m0.refs, m0.refs.len() as int)
    &&& forall|k: int| 0 <= k < m0.refs.len() ==> #[trigger] went(m0, m1, remap, k)
    &&& forall|k: int| 0 <= k < m1.refs.len() ==> #[trigger] m1.used(k)
}

proof fn lemma_used_bound(refs: Seq<u32>, k: int)
    requires
        0 <= k,
    ensures
        0 <= used_before(refs, k) <= k,
    decreases k,
{
    if k > 0 {
        lemma_used_bound(refs, k - 1);
    }
}

proof fn lemma_used_grow(refs: Seq<u32>, i: int, j: int)
    requires
        0 <= i <= j,
    ensures
        used_before(refs, i) <= used_before(refs, j),
    decreases j,
{
    if i < j {
        lemma_used_grow(refs, i, j - 1);
    }
}

proof fn lemma_dead_none(pairs: Seq<NamePair>, refs: Seq<u32>, k: int)
    requires
        0 <= k <= refs.len(),
        forall|i: int| 0 <= i < k ==> refs[i] > 0,
    ensures
        dead_sum(pairs, refs, k) == 0,
    decreases k,
{
    if k > 0 {
        lemma_dead_none(pairs, refs, k - 1);
    }
}

impl CompactedNames {
    /// The name `k` of the store has its place here, or none if it is unused.
    closed spec fn moved(&self, m: NameModel, k: int) -> bool {
        if m.used(k) {
            &&& self.remap@[k] == used_before(m.refs, k)
            &&& self.remap@[k] < self.pairs@.len()
            &&& raw_in(self.pairs@, self.raw@, self.folded@, self.remap@[k] as int) == m.bytes[k]
            &&& folded_in(self.pairs@, self.folded@, self.remap@[k] as int) == fold::folded(
                m.bytes[k],
            )
            &&& self.refcount@[self.remap@[k] as int] == m.refs[k]
            &&& self.head@[self.remap@[k] as int] == m.heads[k]
        } else {
            self.remap@[k] == NIL
        }
    }

    /// The name at the place `k` is one of the first `n` of the store.
    closed spec fn came(&self, m: NameModel, k: int, n: int) -> bool {
        &&& 0 <= self.from@[k] < n
        &&& m.used(self.from@[k])
        &&& used_before(m.refs, self.from@[k]) == k
    }

    closed spec fn plans_upto(&self, m: NameModel, n: int) -> bool {
        &&& self.remap@.len() == n
        &&& self.pairs@.len() == used_before(m.refs, n)
        &&& self.refcount@.len() == self.pairs@.len()
        &&& self.head@.len() == self.pairs@.len()
        &&& self.from@.len() == self.pairs@.len()
        &&& self.pairs@.len() <= NIL
        &&& laid_out(self.pairs@, self.raw@, self.folded@)
        &&& forall|k: int| 0 <= k < n ==> #[trigger] self.moved(m, k)
        &&& forall|k: int| 0 <= k < self.pairs@.len() ==> #[trigger] self.came(m, k, n)
    }

    /// This is the compacted form of a store that says `m`.
    pub closed spec fn plans(&self, m: NameModel) -> bool {
        self.plans_upto(m, m.refs.len() as int)
    }
}

/// Appends a name and a NUL to an arena.
fn push_name(buf: &mut Vec<u8>, bytes: &[u8]) -> (r: NameRef)
    requires
        bytes@.len() <= MAX_NAME,
        old(buf)@.len() + bytes@.len() + 1 < RAW_IN_FOLDED,
    ensures
        final(buf)@ == old(buf)@ + bytes@ + seq![0u8],
        r.off == old(buf)@.len(),
        r.len == bytes@.len(),
{
    let off = buf.len() as u32;
    buf.extend_from_slice(bytes);
    buf.push(0);
    assert(buf@ =~= old(buf)@ + bytes@ + seq![0u8]);
    NameRef { off, len: bytes.len() as u16 }
}

/// Clears a span of bytes.
fn clear_span(buf: &mut Vec<u8>, off: usize, len: usize)
    requires
        off + len <= old(buf)@.len(),
    ensures
        final(buf)@.len() == old(buf)@.len(),
        forall|k: int|
            0 <= k < final(buf)@.len() ==> #[trigger] final(buf)@[k] == if off <= k < off + len {
                0
            } else {
                old(buf)@[k]
            },
{
    let n = buf.len();
    let mut i: usize = 0;
    while i < len
        invariant
            i <= len,
            n == buf@.len(),
            off + len <= n,
            buf@.len() == old(buf)@.len(),
            forall|k: int|
                0 <= k < buf@.len() ==> #[trigger] buf@[k] == if off <= k < off + i {
                    0
                } else {
                    old(buf)@[k]
                },
        decreases len - i,
    {
        buf[off + i] = 0;
        i = i + 1;
    }
}

/// A name put behind the others leaves them alone.
proof fn lemma_pushed(
    pairs: Seq<NamePair>,
    raw: Seq<u8>,
    folded: Seq<u8>,
    p: NamePair,
    raw2: Seq<u8>,
    folded2: Seq<u8>,
)
    requires
        laid_out(pairs, raw, folded),
        p.folded.off == folded.len(),
        folded2.len() == folded.len() + p.folded.len + 1,
        folded2.len() < RAW_IN_FOLDED,
        raw2.len() < RAW_IN_FOLDED,
        folded2[p.folded.off + p.folded.len] == 0,
        forall|k: int| 0 <= k < folded.len() ==> folded2[k] == folded[k],
        forall|k: int| 0 <= k < raw.len() ==> raw2[k] == raw[k],
        if shared(p) {
            p.raw.off == p.folded.off + RAW_IN_FOLDED && p.raw.len == p.folded.len && raw2.len()
                == raw.len()
        } else {
            p.raw.off == raw.len() && raw2.len() == raw.len() + p.raw.len + 1 && raw2[p.raw.off
                + p.raw.len] == 0
        },
    ensures
        laid_out(pairs.push(p), raw2, folded2),
        forall|i: int|
            0 <= i < pairs.len() ==> {
                &&& #[trigger] raw_in(pairs.push(p), raw2, folded2, i) == raw_in(
                    pairs,
                    raw,
                    folded,
                    i,
                )
                &&& folded_in(pairs.push(p), folded2, i) == folded_in(pairs, folded, i)
            },
{
    let more = pairs.push(p);
    let n = pairs.len() as int;
    lemma_sums_prefix(pairs, more, n);
    assert forall|i: int| 0 <= i < more.len() implies #[trigger] placed(more, raw2, folded2, i) by {
        lemma_sums_prefix(pairs, more, if i < n { i } else { n });
        if i < n {
            assert(placed(pairs, raw, folded, i));
            lemma_in_arena(pairs, raw, folded, i);
        }
    }
    assert forall|i: int| 0 <= i < pairs.len() implies {
        &&& #[trigger] raw_in(more, raw2, folded2, i) == raw_in(pairs, raw, folded, i)
        &&& folded_in(more, folded2, i) == folded_in(pairs, folded, i)
    } by {
        lemma_in_arena(pairs, raw, folded, i);
        assert(placed(pairs, raw, folded, i));
        assert(raw_in(more, raw2, folded2, i) =~= raw_in(pairs, raw, folded, i));
        assert(folded_in(more, folded2, i) =~= folded_in(pairs, folded, i));
    }
}

/// Clearing one name leaves the others alone.
proof fn lemma_cleared(
    pairs: Seq<NamePair>,
    raw: Seq<u8>,
    folded: Seq<u8>,
    id: int,
    raw2: Seq<u8>,
    folded2: Seq<u8>,
)
    requires
        laid_out(pairs, raw, folded),
        0 <= id < pairs.len(),
        raw2.len() == raw.len(),
        folded2.len() == folded.len(),
        forall|k: int|
            0 <= k < folded.len() ==> #[trigger] folded2[k] == if pairs[id].folded.off <= k
                < pairs[id].folded.off + pairs[id].folded.len {
                0
            } else {
                folded[k]
            },
        forall|k: int|
            0 <= k < raw.len() ==> #[trigger] raw2[k] == if !shared(pairs[id])
                && pairs[id].raw.off <= k < pairs[id].raw.off + pairs[id].raw.len {
                0
            } else {
                raw[k]
            },
    ensures
        laid_out(pairs, raw2, folded2),
        forall|i: int| 0 <= i < pairs.len() ==> #[trigger] in_arena(pairs, raw2, folded2, i),
        forall|i: int|
            0 <= i < pairs.len() && i != id ==> {
                &&& #[trigger] raw_in(pairs, raw2, folded2, i) == raw_in(pairs, raw, folded, i)
                &&& folded_in(pairs, folded2, i) == folded_in(pairs, folded, i)
            },
{
    lemma_in_arena(pairs, raw, folded, id);
    assert(placed(pairs, raw, folded, id));
    assert forall|i: int| 0 <= i < pairs.len() implies #[trigger] placed(pairs, raw2, folded2, i) by {
        assert(placed(pairs, raw, folded, i));
        lemma_in_arena(pairs, raw, folded, i);
    }
    assert forall|i: int| 0 <= i < pairs.len() implies #[trigger] in_arena(
        pairs,
        raw2,
        folded2,
        i,
    ) by {
        lemma_in_arena(pairs, raw, folded, i);
    }
    assert forall|i: int| 0 <= i < pairs.len() && i != id implies {
        &&& #[trigger] raw_in(pairs, raw2, folded2, i) == raw_in(pairs, raw, folded, i)
        &&& folded_in(pairs, folded2, i) == folded_in(pairs, folded, i)
    } by {
        lemma_in_arena(pairs, raw, folded, i);
        assert(placed(pairs, raw, folded, i));
        if i < id {
            lemma_sums_grow(pairs, i + 1, id);
        } else {
            lemma_sums_grow(pairs, id + 1, i);
        }
        assert(raw_in(pairs, raw2, folded2, i) =~= raw_in(pairs, raw, folded, i));
        assert(folded_in(pairs, folded2, i) =~= folded_in(pairs, folded, i));
    }
}

} // verus!
