//! How many entries stand in for directories that were not seen.

use crate::index::model::{Ent, Volume};
use crate::types::EntryIdx;
use vstd::prelude::*;

verus! {

/// One, where the slot holds a placeholder.
pub open spec fn stands_in(s: Option<Ent>) -> int {
    if s is Some && s->0.placeholder {
        1
    } else {
        0
    }
}

/// How many slots hold a placeholder.
pub open spec fn standins(slots: Seq<Option<Ent>>) -> int
    decreases slots.len(),
{
    if slots.len() == 0 {
        0
    } else {
        standins(slots.drop_last()) + stands_in(slots.last())
    }
}

impl Volume {
    /// How many more placeholders are counted than there are.
    pub open spec fn surplus(self) -> int {
        self.placeholders - standins(self.slots)
    }
}

/// A slot with another entry counts as that.
pub proof fn lemma_update(slots: Seq<Option<Ent>>, i: int, x: Option<Ent>)
    requires
        0 <= i < slots.len(),
    ensures
        standins(slots.update(i, x)) == standins(slots) - stands_in(slots[i]) + stands_in(x),
    decreases slots.len(),
{
    let new = slots.update(i, x);
    if i == slots.len() - 1 {
        assert(new.drop_last() =~= slots.drop_last());
    } else {
        assert(new.drop_last() =~= slots.drop_last().update(i, x));
        lemma_update(slots.drop_last(), i, x);
    }
}

/// What counts is which slots hold a placeholder.
pub proof fn lemma_same(a: Seq<Option<Ent>>, b: Seq<Option<Ent>>)
    requires
        a.len() == b.len(),
        forall|i: int| 0 <= i < a.len() ==> stands_in(#[trigger] a[i]) == stands_in(b[i]),
    ensures
        standins(a) == standins(b),
    decreases a.len(),
{
    if a.len() > 0 {
        let x = a.drop_last();
        let y = b.drop_last();
        assert forall|i: int| 0 <= i < x.len() implies stands_in(#[trigger] x[i]) == stands_in(
            y[i],
        ) by {
            assert(stands_in(a[i]) == stands_in(b[i]));
        }
        lemma_same(x, y);
        assert(stands_in(a[a.len() - 1]) == stands_in(b[a.len() - 1]));
    }
}

/// Where no placeholder is counted there is none.
pub proof fn lemma_none(slots: Seq<Option<Ent>>)
    ensures
        standins(slots) >= 0,
        forall|i: int| 0 <= i < slots.len() ==> stands_in(#[trigger] slots[i]) <= standins(slots),
        (forall|i: int| 0 <= i < slots.len() ==> stands_in(#[trigger] slots[i]) == 0)
            ==> standins(slots) == 0,
    decreases slots.len(),
{
    if slots.len() > 0 {
        let d = slots.drop_last();
        lemma_none(d);
        assert forall|i: int| 0 <= i < slots.len() implies stands_in(#[trigger] slots[i])
            <= standins(slots) by {
            if i < d.len() {
                assert(d[i] == slots[i]);
            }
        }
        if forall|i: int| 0 <= i < slots.len() ==> stands_in(#[trigger] slots[i]) == 0 {
            assert forall|i: int| 0 <= i < d.len() implies stands_in(#[trigger] d[i]) == 0 by {
                assert(d[i] == slots[i]);
            }
            assert(stands_in(slots[slots.len() - 1]) == 0);
        }
    }
}

/// One more entry.
pub proof fn lemma_created(v: Volume, x: Ent)
    requires
        v.free.len() > 0 ==> v.free.last() < v.slots.len() && !v.has(v.free.last() as int),
    ensures
        v.created(x).surplus() == v.surplus() - stands_in(Some(x)),
{
    if v.free.len() > 0 {
        lemma_update(v.slots, v.free.last() as int, Some(x));
    } else {
        assert(v.slots.push(Some(x)).drop_last() =~= v.slots);
    }
}

/// One entry less.
pub proof fn lemma_killed(v: Volume, i: EntryIdx)
    requires
        i < v.slots.len(),
    ensures
        v.killed(i).surplus() == v.surplus() + stands_in(v.slots[i as int]),
{
    lemma_update(v.slots, i as int, None);
}

/// One entry less, counted out.
pub proof fn lemma_ended(v: Volume, i: EntryIdx)
    requires
        v.has(i as int),
        v.surplus() >= 0,
    ensures
        v.ended(i).surplus() == v.surplus(),
{
    lemma_killed(v, i);
    lemma_none(v.slots);
    assert(stands_in(v.slots[i as int]) <= standins(v.slots));
}

pub proof fn lemma_all_ended(v: Volume, c: Seq<EntryIdx>)
    requires
        v.surplus() >= 0,
        c.no_duplicates(),
        forall|k: int| 0 <= k < c.len() ==> v.has(#[trigger] c[k] as int),
    ensures
        v.all_ended(c).surplus() == v.surplus(),
        forall|i: EntryIdx| #[trigger]
            v.has(i as int) && !c.contains(i) ==> v.all_ended(c).has(i as int),
    decreases c.len(),
{
    if c.len() > 0 {
        let d = c.drop_last();
        assert forall|k: int| 0 <= k < d.len() implies v.has(#[trigger] d[k] as int) by {
            assert(v.has(c[k] as int));
        }
        lemma_all_ended(v, d);
        assert(v.has(c[c.len() - 1] as int));
        assert(!d.contains(c.last())) by {
            if d.contains(c.last()) {
                let k = choose|k: int| 0 <= k < d.len() && d[k] == c.last();
                assert(c[k] == c[c.len() - 1]);
            }
        }
        let a = v.all_ended(d);
        assert(a.has(c.last() as int));
        lemma_ended(a, c.last());
        assert forall|i: EntryIdx| #[trigger]
            v.has(i as int) && !c.contains(i) implies v.all_ended(c).has(i as int) by {
            assert(!d.contains(i)) by {
                if d.contains(i) {
                    let k = choose|k: int| 0 <= k < d.len() && d[k] == i;
                    assert(c[k] == i);
                }
            }
            assert(c.contains(c[c.len() - 1]));
            assert(a.has(i as int));
        }
    }
}

/// An entry with another parent and name stands in for nothing.
pub proof fn lemma_rewritten(
    v: Volume,
    i: EntryIdx,
    parent: EntryIdx,
    name: Seq<u8>,
    lossy: bool,
    dir: bool,
)
    requires
        v.has(i as int),
        v.surplus() >= 0,
    ensures
        v.rewritten(i, parent, name, lossy, dir).surplus() == v.surplus(),
{
    let x = Ent { parent, name, lossy, dir, placeholder: false, ..v.ent(i) };
    lemma_update(v.slots, i as int, Some(x));
    lemma_none(v.slots);
    assert(stands_in(v.slots[i as int]) <= standins(v.slots));
}

} // verus!
