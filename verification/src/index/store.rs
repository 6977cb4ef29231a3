//! The columns of the entry table.

use crate::types::{EntryIdx, Frn, NIL};
use vstd::prelude::*;

verus! {

/// Index of an interned name.
pub type NameId = u32;

/// A size that is not known.
pub const SIZE_UNKNOWN: u64 = 0xFFFF_FFFF_FFFF_FFFF;

/// A time that is not known.
pub const MTIME_UNKNOWN: i64 = -0x8000_0000_0000_0000;

/// Bytes in use and bytes allocated.
#[derive(Clone, Copy, Debug, PartialEq, Eq, Structural)]
pub struct ComponentBytes {
    pub used: u64,
    pub allocated: u64,
}

impl Default for ComponentBytes {
    fn default() -> (c: ComponentBytes)
        ensures
            c.used == 0,
            c.allocated == 0,
    {
        ComponentBytes { used: 0, allocated: 0 }
    }
}

/// `Vec::capacity`: at least the number of items.
#[verifier::external_body]
fn capacity_of<T>(v: &Vec<T>) -> (c: usize)
    ensures
        c >= v@.len(),
{
    v.capacity()
}

/// `Vec::shrink_to`: the items stay. How much room is left behind them is up to
/// the allocator, and is not said.
#[verifier::external_body]
fn shrink_vec_to<T>(v: &mut Vec<T>, capacity: usize)
    ensures
        final(v)@ == old(v)@,
{
    v.shrink_to(capacity)
}

/// The room that is kept for so many items: one part in sixty-four more, and
/// sixty-four, so that the next ones do not double the vector.
pub open spec fn roomy(n: int) -> int {
    n + n / 64 + 64
}

/// The room that is kept for so many items.
pub fn with_headroom(n: usize) -> (room: usize)
    ensures
        room == if roomy(n as int) <= usize::MAX {
            roomy(n as int)
        } else {
            usize::MAX as int
        },
{
    n.saturating_add(n / 64).saturating_add(64)
}

/// Gives back the spare capacity of a vector, but for some headroom.
pub(crate) fn shrink_vec<T>(v: &mut Vec<T>)
    ensures
        final(v)@ == old(v)@,
{
    let room = with_headroom(v.len());
    shrink_vec_to(v, room);
}

impl ComponentBytes {
    /// The bytes of a vector whose items take `width` bytes each.
    pub(crate) fn of_vec<T>(v: &Vec<T>, width: u8) -> (c: ComponentBytes)
        ensures
            c.used == capped(v@.len() as int * width),
            c.allocated >= c.used,
    {
        let cap = capacity_of(v);
        proof {
            assert(cap * width >= v@.len() * width) by (nonlinear_arith)
                requires
                    cap >= v@.len(),
            ;
        }
        ComponentBytes {
            used: times(v.len(), width),
            allocated: times(cap, width),
        }
    }

    /// The sum of two parts; what does not fit is cut off at the greatest
    /// number.
    pub fn plus(self, other: ComponentBytes) -> (c: ComponentBytes)
        ensures
            c.used == sum(self.used, other.used),
            c.allocated == sum(self.allocated, other.allocated),
    {
        ComponentBytes {
            used: self.used.saturating_add(other.used),
            allocated: self.allocated.saturating_add(other.allocated),
        }
    }
}

/// A number of bytes, cut off at the greatest number.
pub open spec fn capped(n: int) -> u64 {
    if n > u64::MAX {
        u64::MAX
    } else {
        n as u64
    }
}

/// The bytes of so many items.
pub(crate) fn times(n: usize, width: u8) -> (bytes: u64)
    ensures
        bytes == capped(n * width),
{
    proof {
        assert(n * width >= 0) by (nonlinear_arith);
    }
    match (n as u64).checked_mul(width as u64) {
        Some(bytes) => bytes,
        None => u64::MAX,
    }
}

/// The sum, cut off at the greatest number.
pub open spec fn sum(a: u64, b: u64) -> u64 {
    if a + b > u64::MAX {
        u64::MAX
    } else {
        (a + b) as u64
    }
}

/// Properties of an entry.
#[derive(Clone, Copy, Debug, PartialEq, Eq, Structural)]
pub struct EntryFlags(u8);

impl EntryFlags {
    /// A directory.
    pub const DIR: u8 = 1;

    /// A slot without an entry.
    pub const TOMBSTONE: u8 = 2;

    /// The directory that holds what has no parent.
    pub const LOST_FOUND: u8 = 4;

    /// Stands in for a directory that is known by number only.
    pub const PLACEHOLDER: u8 = 8;

    /// The name holds an unpaired surrogate.
    pub const NON_UNICODE_NAME: u8 = 16;

    /// The entry is in no chain of children, because its parent is gone.
    pub const CHAIN_DETACHED: u8 = 32;

    pub closed spec fn bits(self) -> u8 {
        self.0
    }

    /// Every flag of `mask` is set.
    pub open spec fn has(self, mask: u8) -> bool {
        self.bits() & mask == mask
    }

    /// No flag is set.
    pub fn empty() -> (f: EntryFlags)
        ensures
            f.bits() == 0,
    {
        EntryFlags(0)
    }

    /// Every flag of `mask` is set.
    pub fn contains(self, mask: u8) -> (r: bool)
        ensures
            r == self.has(mask),
    {
        self.0 & mask == mask
    }

    /// With the flags of `mask` set or cleared.
    pub fn with(self, mask: u8, on: bool) -> (f: EntryFlags)
        ensures
            f.bits() == (if on {
                self.bits() | mask
            } else {
                self.bits() & !mask
            }),
    {
        if on {
            EntryFlags(self.0 | mask)
        } else {
            EntryFlags(self.0 & !mask)
        }
    }
}

impl Default for EntryFlags {
    fn default() -> (f: EntryFlags)
        ensures
            f.bits() == 0,
    {
        EntryFlags(0)
    }
}

/// One flag.
pub open spec fn single(m: u8) -> bool {
    m == 1 || m == 2 || m == 4 || m == 8 || m == 16 || m == 32
}

/// Setting or clearing one flag does that and leaves the others alone.
pub proof fn lemma_one_flag(f: EntryFlags, g: EntryFlags, m: u8, on: bool)
    requires
        single(m),
        g.bits() == (if on {
            f.bits() | m
        } else {
            f.bits() & !m
        }),
    ensures
        g.has(m) == on,
        forall|k: u8| #![trigger g.has(k)] single(k) && k != m ==> g.has(k) == f.has(k),
{
    let a = f.bits();
    assert forall|k: u8| #![trigger g.has(k)] single(k) && k != m implies g.has(k) == f.has(k) by {
        assert((m == 1 || m == 2 || m == 4 || m == 8 || m == 16 || m == 32) && (k == 1 || k == 2
            || k == 4 || k == 8 || k == 16 || k == 32) && k != m ==> ((a | m) & k == k) == (a & k
            == k) && ((a & !m) & k == k) == (a & k == k)) by (bit_vector);
    }
    assert((m == 1 || m == 2 || m == 4 || m == 8 || m == 16 || m == 32) ==> (a | m) & m == m && (a
        & !m) & m != m) by (bit_vector);
}

pub proof fn lemma_no_flag(f: EntryFlags)
    requires
        f.bits() == 0,
    ensures
        forall|k: u8| #![trigger f.has(k)] single(k) ==> !f.has(k),
{
    assert forall|k: u8| #![trigger f.has(k)] single(k) implies !f.has(k) by {
        assert(0u8 & k == 0) by (bit_vector);
    }
}

/// What the columns hold for one entry.
pub ghost struct Slot {
    pub frn: Frn,
    pub parent: EntryIdx,
    pub name_id: NameId,
    pub flags: EntryFlags,
    pub size: u64,
    pub mtime: i64,
    pub next_link: EntryIdx,
    pub next_same: EntryIdx,
    pub prev_same: EntryIdx,
    pub first_child: EntryIdx,
    pub next_child: EntryIdx,
    pub prev_child: EntryIdx,
}

impl Slot {
    /// The slot holds an entry.
    pub open spec fn live(self) -> bool {
        !self.flags.has(EntryFlags::TOMBSTONE)
    }
}

/// The slot of a new entry, in no chain yet.
pub open spec fn new_slot(
    frn: Frn,
    parent: EntryIdx,
    name_id: NameId,
    flags: EntryFlags,
    size: u64,
    mtime: i64,
    next_link: EntryIdx,
) -> Slot {
    Slot {
        frn,
        parent,
        name_id,
        flags,
        size,
        mtime,
        next_link,
        next_same: NIL,
        prev_same: NIL,
        first_child: NIL,
        next_child: NIL,
        prev_child: NIL,
    }
}

/// The slots without entry are exactly the free ones.
pub open spec fn free_ok(slots: Seq<Slot>, free: Seq<EntryIdx>) -> bool {
    &&& free.no_duplicates()
    &&& forall|k: int|
        #![trigger free[k]]
        0 <= k < free.len() ==> free[k] < slots.len() && !slots[free[k] as int].live()
    &&& forall|i: int|
        #![trigger slots[i]]
        0 <= i < slots.len() && !slots[i].live() ==> free.contains(i as EntryIdx)
}

/// The entries, one column for each property. A slot that loses its entry is
/// reused, the latest first.
pub struct EntryTable {
    frn: Vec<Frn>,
    parent: Vec<EntryIdx>,
    name_id: Vec<NameId>,
    flags: Vec<EntryFlags>,
    size: Vec<u64>,
    mtime: Vec<i64>,
    next_link: Vec<EntryIdx>,
    next_same: Vec<EntryIdx>,
    prev_same: Vec<EntryIdx>,
    first_child: Vec<EntryIdx>,
    next_child: Vec<EntryIdx>,
    prev_child: Vec<EntryIdx>,
    free: Vec<EntryIdx>,
    live: usize,
}

impl EntryTable {
    /// The slots, in index order.
    pub closed spec fn slots(&self) -> Seq<Slot> {
        Seq::new(
            self.frn@.len(),
            |i: int|
                Slot {
                    frn: self.frn@[i],
                    parent: self.parent@[i],
                    name_id: self.name_id@[i],
                    flags: self.flags@[i],
                    size: self.size@[i],
                    mtime: self.mtime@[i],
                    next_link: self.next_link@[i],
                    next_same: self.next_same@[i],
                    prev_same: self.prev_same@[i],
                    first_child: self.first_child@[i],
                    next_child: self.next_child@[i],
                    prev_child: self.prev_child@[i],
                },
        )
    }

    /// The slots that can be reused; the last one is next.
    pub closed spec fn free(&self) -> Seq<EntryIdx> {
        self.free@
    }

    pub closed spec fn wf(&self) -> bool {
        &&& self.frn@.len() <= NIL
        &&& self.parent@.len() == self.frn@.len()
        &&& self.name_id@.len() == self.frn@.len()
        &&& self.flags@.len() == self.frn@.len()
        &&& self.size@.len() == self.frn@.len()
        &&& self.mtime@.len() == self.frn@.len()
        &&& self.next_link@.len() == self.frn@.len()
        &&& self.next_same@.len() == self.frn@.len()
        &&& self.prev_same@.len() == self.frn@.len()
        &&& self.first_child@.len() == self.frn@.len()
        &&& self.next_child@.len() == self.frn@.len()
        &&& self.prev_child@.len() == self.frn@.len()
        &&& self.live + self.free@.len() == self.frn@.len()
        &&& free_ok(self.slots(), self.free@)
    }

    pub proof fn lemma_wf(&self)
        requires
            self.wf(),
        ensures
            self.slots().len() <= NIL,
            free_ok(self.slots(), self.free()),
    {
    }

    /// A table without entries.
    pub fn new() -> (t: EntryTable)
        ensures
            t.wf(),
            t.slots() == Seq::<Slot>::empty(),
            t.free() == Seq::<EntryIdx>::empty(),
    {
        let t = EntryTable {
            frn: Vec::new(),
            parent: Vec::new(),
            name_id: Vec::new(),
            flags: Vec::new(),
            size: Vec::new(),
            mtime: Vec::new(),
            next_link: Vec::new(),
            next_same: Vec::new(),
            prev_same: Vec::new(),
            first_child: Vec::new(),
            next_child: Vec::new(),
            prev_child: Vec::new(),
            free: Vec::new(),
            live: 0,
        };
        assert(t.slots() =~= Seq::<Slot>::empty());
        t
    }

    /// Makes an entry in a free slot, or in a new one where none is free.
    pub fn insert(
        &mut self,
        frn: Frn,
        parent: EntryIdx,
        name_id: NameId,
        flags: EntryFlags,
        size: u64,
        mtime: i64,
        next_link: EntryIdx,
    ) -> (idx: EntryIdx)
        requires
            old(self).wf(),
            !flags.has(EntryFlags::TOMBSTONE),
            old(self).free().len() > 0 || old(self).slots().len() < NIL,
        ensures
            final(self).wf(),
            ({
                let slot = new_slot(frn, parent, name_id, flags, size, mtime, next_link);
                if old(self).free().len() > 0 {
                    &&& idx == old(self).free().last()
                    &&& final(self).free() == old(self).free().drop_last()
                    &&& final(self).slots() == old(self).slots().update(idx as int, slot)
                } else {
                    &&& idx == old(self).slots().len()
                    &&& final(self).free() == old(self).free()
                    &&& final(self).slots() == old(self).slots().push(slot)
                }
            }),
    {
        let ghost slot = new_slot(frn, parent, name_id, flags, size, mtime, next_link);
        let ghost before = self.slots();
        let ghost free0 = self.free@;
        if let Some(idx) = self.free.pop() {
            let i = idx as usize;
            proof {
                assert(free0[free0.len() - 1] == idx);
            }
            self.frn[i] = frn;
            self.parent[i] = parent;
            self.name_id[i] = name_id;
            self.flags[i] = flags;
            self.size[i] = size;
            self.mtime[i] = mtime;
            self.next_link[i] = next_link;
            self.next_same[i] = NIL;
            self.prev_same[i] = NIL;
            self.first_child[i] = NIL;
            self.next_child[i] = NIL;
            self.prev_child[i] = NIL;
            self.live = self.live + 1;
            proof {
                let after = before.update(idx as int, slot);
                assert(self.slots() =~= after);
                assert(self.free@ =~= free0.drop_last());
                assert forall|k: int|
                    #![trigger self.free@[k]]
                    0 <= k < self.free@.len() implies self.free@[k] < after.len()
                    && !after[self.free@[k] as int].live() by {
                    assert(self.free@[k] == free0[k]);
                    assert(free0[k] != free0[free0.len() - 1]);
                }
                assert forall|j: int|
                    #![trigger after[j]]
                    0 <= j < after.len() && !after[j].live() implies self.free@.contains(
                    j as EntryIdx,
                ) by {
                    assert(j != idx);
                    assert(!before[j].live());
                    assert(free0.contains(j as EntryIdx));
                    let k = choose|k: int| 0 <= k < free0.len() && free0[k] == j as EntryIdx;
                    assert(self.free@[k] == j as EntryIdx);
                }
            }
            idx
        } else {
            let idx = self.frn.len() as EntryIdx;
            self.frn.push(frn);
            self.parent.push(parent);
            self.name_id.push(name_id);
            self.flags.push(flags);
            self.size.push(size);
            self.mtime.push(mtime);
            self.next_link.push(next_link);
            self.next_same.push(NIL);
            self.prev_same.push(NIL);
            self.first_child.push(NIL);
            self.next_child.push(NIL);
            self.prev_child.push(NIL);
            self.live = self.live + 1;
            proof {
                let after = before.push(slot);
                assert(self.slots() =~= after);
                assert forall|j: int|
                    #![trigger after[j]]
                    0 <= j < after.len() && !after[j].live() implies self.free@.contains(
                    j as EntryIdx,
                ) by {
                    assert(j < before.len());
                    assert(!before[j].live());
                }
            }
            idx
        }
    }

    /// Ends an entry: its slot leaves all chains and can be reused.
    pub fn tombstone(&mut self, idx: EntryIdx)
        requires
            old(self).wf(),
            idx < old(self).slots().len(),
            old(self).slots()[idx as int].live(),
        ensures
            final(self).wf(),
            final(self).free() == old(self).free().push(idx),
            final(self).slots().len() == old(self).slots().len(),
            ({
                let was = old(self).slots()[idx as int];
                let now = final(self).slots()[idx as int];
                &&& !now.live()
                &&& final(self).slots() == old(self).slots().update(
                    idx as int,
                    Slot {
                        flags: now.flags,
                        next_link: NIL,
                        next_same: NIL,
                        prev_same: NIL,
                        first_child: NIL,
                        next_child: NIL,
                        prev_child: NIL,
                        ..was
                    },
                )
            }),
    {
        let i = idx as usize;
        let ghost before = self.slots();
        let ghost free0 = self.free@;
        let flags = EntryFlags::empty().with(EntryFlags::TOMBSTONE, true);
        proof {
            lemma_one_flag(EntryFlags(0), flags, EntryFlags::TOMBSTONE, true);
            assert(self.live > 0) by {
                lemma_free_room(before, free0, idx as int);
            }
        }
        self.flags[i] = flags;
        self.next_link[i] = NIL;
        self.next_same[i] = NIL;
        self.prev_same[i] = NIL;
        self.first_child[i] = NIL;
        self.next_child[i] = NIL;
        self.prev_child[i] = NIL;
        self.free.push(idx);
        self.live = self.live - 1;
        proof {
            let after = before.update(
                idx as int,
                Slot {
                    flags,
                    next_link: NIL,
                    next_same: NIL,
                    prev_same: NIL,
                    first_child: NIL,
                    next_child: NIL,
                    prev_child: NIL,
                    ..before[idx as int]
                },
            );
            assert(self.slots() =~= after);
            assert(!free0.contains(idx)) by {
                if free0.contains(idx) {
                    let k = choose|k: int| 0 <= k < free0.len() && free0[k] == idx;
                    assert(!before[free0[k] as int].live());
                }
            }
            assert(self.free@ =~= free0.push(idx));
            assert forall|a: int, b: int|
                0 <= a < self.free@.len() && 0 <= b < self.free@.len() && a != b implies self.free@[a]
                != self.free@[b] by {
                if a == free0.len() {
                    assert(free0[b] == self.free@[b]);
                    assert(free0.contains(free0[b]));
                } else if b == free0.len() {
                    assert(free0[a] == self.free@[a]);
                    assert(free0.contains(free0[a]));
                } else {
                    assert(free0[a] == self.free@[a] && free0[b] == self.free@[b]);
                }
            }
            assert forall|k: int|
                #![trigger self.free@[k]]
                0 <= k < self.free@.len() implies self.free@[k] < after.len()
                && !after[self.free@[k] as int].live() by {
                if k < free0.len() {
                    assert(self.free@[k] == free0[k]);
                }
            }
            assert forall|j: int|
                #![trigger after[j]]
                0 <= j < after.len() && !after[j].live() implies self.free@.contains(
                j as EntryIdx,
            ) by {
                if j == idx {
                    assert(self.free@[free0.len() as int] == idx);
                } else {
                    assert(!before[j].live());
                    assert(free0.contains(j as EntryIdx));
                    let k = choose|k: int| 0 <= k < free0.len() && free0[k] == j as EntryIdx;
                    assert(self.free@[k] == j as EntryIdx);
                }
            }
        }
    }

    pub fn is_tombstone(&self, idx: EntryIdx) -> (r: bool)
        requires
            self.wf(),
            idx < self.slots().len(),
        ensures
            r == !self.slots()[idx as int].live(),
    {
        self.flags[idx as usize].contains(EntryFlags::TOMBSTONE)
    }

    /// How many entries there are.
    pub fn live(&self) -> (n: usize)
        requires
            self.wf(),
        ensures
            n + self.free().len() == self.slots().len(),
    {
        self.live
    }

    /// How many slots there are, with an entry or without.
    pub fn capacity(&self) -> (n: usize)
        requires
            self.wf(),
        ensures
            n == self.slots().len(),
    {
        self.frn.len()
    }

    pub fn frn(&self, idx: EntryIdx) -> (r: Frn)
        requires
            self.wf(),
            idx < self.slots().len(),
        ensures
            r == self.slots()[idx as int].frn,
    {
        self.frn[idx as usize]
    }

    pub fn parent(&self, idx: EntryIdx) -> (r: EntryIdx)
        requires
            self.wf(),
            idx < self.slots().len(),
        ensures
            r == self.slots()[idx as int].parent,
    {
        self.parent[idx as usize]
    }

    pub fn name_id(&self, idx: EntryIdx) -> (r: NameId)
        requires
            self.wf(),
            idx < self.slots().len(),
        ensures
            r == self.slots()[idx as int].name_id,
    {
        self.name_id[idx as usize]
    }

    pub fn flags(&self, idx: EntryIdx) -> (r: EntryFlags)
        requires
            self.wf(),
            idx < self.slots().len(),
        ensures
            r == self.slots()[idx as int].flags,
    {
        self.flags[idx as usize]
    }

    pub fn size(&self, idx: EntryIdx) -> (r: u64)
        requires
            self.wf(),
            idx < self.slots().len(),
        ensures
            r == self.slots()[idx as int].size,
    {
        self.size[idx as usize]
    }

    pub fn mtime(&self, idx: EntryIdx) -> (r: i64)
        requires
            self.wf(),
            idx < self.slots().len(),
        ensures
            r == self.slots()[idx as int].mtime,
    {
        self.mtime[idx as usize]
    }

    pub fn next_link(&self, idx: EntryIdx) -> (r: EntryIdx)
        requires
            self.wf(),
            idx < self.slots().len(),
        ensures
            r == self.slots()[idx as int].next_link,
    {
        self.next_link[idx as usize]
    }

    pub fn next_same(&self, idx: EntryIdx) -> (r: EntryIdx)
        requires
            self.wf(),
            idx < self.slots().len(),
        ensures
            r == self.slots()[idx as int].next_same,
    {
        self.next_same[idx as usize]
    }

    pub fn prev_same(&self, idx: EntryIdx) -> (r: EntryIdx)
        requires
            self.wf(),
            idx < self.slots().len(),
        ensures
            r == self.slots()[idx as int].prev_same,
    {
        self.prev_same[idx as usize]
    }

    pub fn first_child(&self, idx: EntryIdx) -> (r: EntryIdx)
        requires
            self.wf(),
            idx < self.slots().len(),
        ensures
            r == self.slots()[idx as int].first_child,
    {
        self.first_child[idx as usize]
    }

    pub fn next_child(&self, idx: EntryIdx) -> (r: EntryIdx)
        requires
            self.wf(),
            idx < self.slots().len(),
        ensures
            r == self.slots()[idx as int].next_child,
    {
        self.next_child[idx as usize]
    }

    pub fn prev_child(&self, idx: EntryIdx) -> (r: EntryIdx)
        requires
            self.wf(),
            idx < self.slots().len(),
        ensures
            r == self.slots()[idx as int].prev_child,
    {
        self.prev_child[idx as usize]
    }

    pub fn set_parent(&mut self, idx: EntryIdx, value: EntryIdx)
        requires
            old(self).wf(),
            idx < old(self).slots().len(),
        ensures
            final(self).wf(),
            final(self).free() == old(self).free(),
            final(self).slots() == old(self).slots().update(
                idx as int,
                Slot { parent: value, ..old(self).slots()[idx as int] },
            ),
    {
        self.parent[idx as usize] = value;
        proof {
            let after = old(self).slots().update(
                idx as int,
                Slot { parent: value, ..old(self).slots()[idx as int] },
            );
            assert(self.slots() =~= after);
            lemma_free_kept(old(self).slots(), after, self.free@);
        }
    }

    pub fn set_name_id(&mut self, idx: EntryIdx, value: NameId)
        requires
            old(self).wf(),
            idx < old(self).slots().len(),
        ensures
            final(self).wf(),
            final(self).free() == old(self).free(),
            final(self).slots() == old(self).slots().update(
                idx as int,
                Slot { name_id: value, ..old(self).slots()[idx as int] },
            ),
    {
        self.name_id[idx as usize] = value;
        proof {
            let after = old(self).slots().update(
                idx as int,
                Slot { name_id: value, ..old(self).slots()[idx as int] },
            );
            assert(self.slots() =~= after);
            lemma_free_kept(old(self).slots(), after, self.free@);
        }
    }

    pub fn set_flags(&mut self, idx: EntryIdx, value: EntryFlags)
        requires
            old(self).wf(),
            idx < old(self).slots().len(),
            value.has(EntryFlags::TOMBSTONE) == old(self).slots()[idx as int].flags.has(
                EntryFlags::TOMBSTONE,
            ),
        ensures
            final(self).wf(),
            final(self).free() == old(self).free(),
            final(self).slots() == old(self).slots().update(
                idx as int,
                Slot { flags: value, ..old(self).slots()[idx as int] },
            ),
    {
        self.flags[idx as usize] = value;
        proof {
            let after = old(self).slots().update(
                idx as int,
                Slot { flags: value, ..old(self).slots()[idx as int] },
            );
            assert(self.slots() =~= after);
            lemma_free_kept(old(self).slots(), after, self.free@);
        }
    }

    pub fn set_size(&mut self, idx: EntryIdx, value: u64)
        requires
            old(self).wf(),
            idx < old(self).slots().len(),
        ensures
            final(self).wf(),
            final(self).free() == old(self).free(),
            final(self).slots() == old(self).slots().update(
                idx as int,
                Slot { size: value, ..old(self).slots()[idx as int] },
            ),
    {
        self.size[idx as usize] = value;
        proof {
            let after = old(self).slots().update(
                idx as int,
                Slot { size: value, ..old(self).slots()[idx as int] },
            );
            assert(self.slots() =~= after);
            lemma_free_kept(old(self).slots(), after, self.free@);
        }
    }

    pub fn set_mtime(&mut self, idx: EntryIdx, value: i64)
        requires
            old(self).wf(),
            idx < old(self).slots().len(),
        ensures
            final(self).wf(),
            final(self).free() == old(self).free(),
            final(self).slots() == old(self).slots().update(
                idx as int,
                Slot { mtime: value, ..old(self).slots()[idx as int] },
            ),
    {
        self.mtime[idx as usize] = value;
        proof {
            let after = old(self).slots().update(
                idx as int,
                Slot { mtime: value, ..old(self).slots()[idx as int] },
            );
            assert(self.slots() =~= after);
            lemma_free_kept(old(self).slots(), after, self.free@);
        }
    }

    pub fn set_next_link(&mut self, idx: EntryIdx, value: EntryIdx)
        requires
            old(self).wf(),
            idx < old(self).slots().len(),
        ensures
            final(self).wf(),
            final(self).free() == old(self).free(),
            final(self).slots() == old(self).slots().update(
                idx as int,
                Slot { next_link: value, ..old(self).slots()[idx as int] },
            ),
    {
        self.next_link[idx as usize] = value;
        proof {
            let after = old(self).slots().update(
                idx as int,
                Slot { next_link: value, ..old(self).slots()[idx as int] },
            );
            assert(self.slots() =~= after);
            lemma_free_kept(old(self).slots(), after, self.free@);
        }
    }

    pub fn set_next_same(&mut self, idx: EntryIdx, value: EntryIdx)
        requires
            old(self).wf(),
            idx < old(self).slots().len(),
        ensures
            final(self).wf(),
            final(self).free() == old(self).free(),
            final(self).slots() == old(self).slots().update(
                idx as int,
                Slot { next_same: value, ..old(self).slots()[idx as int] },
            ),
    {
        self.next_same[idx as usize] = value;
        proof {
            let after = old(self).slots().update(
                idx as int,
                Slot { next_same: value, ..old(self).slots()[idx as int] },
            );
            assert(self.slots() =~= after);
            lemma_free_kept(old(self).slots(), after, self.free@);
        }
    }

    pub fn set_prev_same(&mut self, idx: EntryIdx, value: EntryIdx)
        requires
            old(self).wf(),
            idx < old(self).slots().len(),
        ensures
            final(self).wf(),
            final(self).free() == old(self).free(),
            final(self).slots() == old(self).slots().update(
                idx as int,
                Slot { prev_same: value, ..old(self).slots()[idx as int] },
            ),
    {
        self.prev_same[idx as usize] = value;
        proof {
            let after = old(self).slots().update(
                idx as int,
                Slot { prev_same: value, ..old(self).slots()[idx as int] },
            );
            assert(self.slots() =~= after);
            lemma_free_kept(old(self).slots(), after, self.free@);
        }
    }

    pub fn set_first_child(&mut self, idx: EntryIdx, value: EntryIdx)
        requires
            old(self).wf(),
            idx < old(self).slots().len(),
        ensures
            final(self).wf(),
            final(self).free() == old(self).free(),
            final(self).slots() == old(self).slots().update(
                idx as int,
                Slot { first_child: value, ..old(self).slots()[idx as int] },
            ),
    {
        self.first_child[idx as usize] = value;
        proof {
            let after = old(self).slots().update(
                idx as int,
                Slot { first_child: value, ..old(self).slots()[idx as int] },
            );
            assert(self.slots() =~= after);
            lemma_free_kept(old(self).slots(), after, self.free@);
        }
    }

    pub fn set_next_child(&mut self, idx: EntryIdx, value: EntryIdx)
        requires
            old(self).wf(),
            idx < old(self).slots().len(),
        ensures
            final(self).wf(),
            final(self).free() == old(self).free(),
            final(self).slots() == old(self).slots().update(
                idx as int,
                Slot { next_child: value, ..old(self).slots()[idx as int] },
            ),
    {
        self.next_child[idx as usize] = value;
        proof {
            let after = old(self).slots().update(
                idx as int,
                Slot { next_child: value, ..old(self).slots()[idx as int] },
            );
            assert(self.slots() =~= after);
            lemma_free_kept(old(self).slots(), after, self.free@);
        }
    }

    pub fn set_prev_child(&mut self, idx: EntryIdx, value: EntryIdx)
        requires
            old(self).wf(),
            idx < old(self).slots().len(),
        ensures
            final(self).wf(),
            final(self).free() == old(self).free(),
            final(self).slots() == old(self).slots().update(
                idx as int,
                Slot { prev_child: value, ..old(self).slots()[idx as int] },
            ),
    {
        self.prev_child[idx as usize] = value;
        proof {
            let after = old(self).slots().update(
                idx as int,
                Slot { prev_child: value, ..old(self).slots()[idx as int] },
            );
            assert(self.slots() =~= after);
            lemma_free_kept(old(self).slots(), after, self.free@);
        }
    }

    /// Bytes of all columns.
    pub fn memory(&self) -> (c: ComponentBytes)
        requires
            self.wf(),
        ensures
            c.used == self.slots().len() * 57 + self.free().len() * 4,
            c.allocated >= c.used,
    {
        proof {
            self.lemma_free_len();
        }
        ComponentBytes::of_vec(&self.frn, 8)
            .plus(ComponentBytes::of_vec(&self.parent, 4))
            .plus(ComponentBytes::of_vec(&self.name_id, 4))
            .plus(ComponentBytes::of_vec(&self.flags, 1))
            .plus(ComponentBytes::of_vec(&self.size, 8))
            .plus(ComponentBytes::of_vec(&self.mtime, 8))
            .plus(ComponentBytes::of_vec(&self.next_link, 4))
            .plus(ComponentBytes::of_vec(&self.next_same, 4))
            .plus(ComponentBytes::of_vec(&self.prev_same, 4))
            .plus(ComponentBytes::of_vec(&self.first_child, 4))
            .plus(ComponentBytes::of_vec(&self.next_child, 4))
            .plus(ComponentBytes::of_vec(&self.prev_child, 4))
            .plus(ComponentBytes::of_vec(&self.free, 4))
    }

    proof fn lemma_free_len(&self)
        requires
            self.wf(),
        ensures
            self.free@.len() <= self.frn@.len() <= NIL,
    {
    }

    /// Gives back most of the spare capacity.
    pub fn shrink_with_headroom(&mut self)
        requires
            old(self).wf(),
        ensures
            final(self).wf(),
            final(self).slots() == old(self).slots(),
            final(self).free() == old(self).free(),
    {
        shrink_vec(&mut self.frn);
        shrink_vec(&mut self.parent);
        shrink_vec(&mut self.name_id);
        shrink_vec(&mut self.flags);
        shrink_vec(&mut self.size);
        shrink_vec(&mut self.mtime);
        shrink_vec(&mut self.next_link);
        shrink_vec(&mut self.next_same);
        shrink_vec(&mut self.prev_same);
        shrink_vec(&mut self.first_child);
        shrink_vec(&mut self.next_child);
        shrink_vec(&mut self.prev_child);
        shrink_vec(&mut self.free);
        assert(self.slots() =~= old(self).slots());
    }
}

/// What is free depends only on which slots hold an entry.
proof fn lemma_free_kept(before: Seq<Slot>, after: Seq<Slot>, free: Seq<EntryIdx>)
    requires
        free_ok(before, free),
        after.len() == before.len(),
        forall|i: int| #![trigger after[i]] 0 <= i < after.len() ==> after[i].live() == before[i].live(),
    ensures
        free_ok(after, free),
{
    assert forall|k: int| #![trigger free[k]] 0 <= k < free.len() implies free[k] < after.len()
        && !after[free[k] as int].live() by {
        assert(!before[free[k] as int].live());
    }
    assert forall|i: int|
        #![trigger after[i]]
        0 <= i < after.len() && !after[i].live() implies free.contains(i as EntryIdx) by {
        assert(!before[i].live());
    }
}

/// A slot with an entry is not among the free ones.
pub proof fn lemma_free_room(slots: Seq<Slot>, free: Seq<EntryIdx>, i: int)
    requires
        free_ok(slots, free),
        0 <= i < slots.len() <= NIL,
        slots[i].live(),
    ensures
        free.len() < slots.len(),
{
    let all = Set::new(|k: int| 0 <= k < slots.len() && k != i);
    let used = free.map_values(|x: EntryIdx| x as int).to_set();
    let f = free.map_values(|x: EntryIdx| x as int);
    assert(f.no_duplicates()) by {
        assert forall|a: int, b: int| 0 <= a < f.len() && 0 <= b < f.len() && a != b implies f[a]
            != f[b] by {
            assert(free[a] != free[b]);
        }
    }
    f.unique_seq_to_set();
    let whole = vstd::set_lib::set_int_range(0, slots.len() as int);
    vstd::set_lib::lemma_int_range(0, slots.len() as int);
    assert(all =~= whole.remove(i));
    assert(whole.contains(i));
    assert(used.subset_of(all)) by {
        assert forall|x: int| used.contains(x) implies all.contains(x) by {
            let k = choose|k: int| 0 <= k < f.len() && f[k] == x;
            assert(free[k] == x);
            assert(!slots[free[k] as int].live());
        }
    }
    vstd::set_lib::lemma_len_subset(used, all);
}

/// Room is kept for sixty-four more items, and for one more with every
/// sixty-four; sums do not wrap.
pub proof fn law_room_grows_with_the_items(n: int, a: u64, b: u64)
    requires
        n >= 0,
    ensures
        roomy(0) == 64,
        roomy(n + 64) == roomy(n) + 65,
        n < 64 ==> roomy(n) == n + 64,
        a + b <= u64::MAX ==> sum(a, b) == a + b && capped(a + b) == a + b,
        a + b > u64::MAX ==> sum(a, b) == u64::MAX && capped(a + b) == u64::MAX,
{
}

} // verus!
