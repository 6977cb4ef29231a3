//! The chains that run through the entry table.
//!
//! Entries with the same name are in one chain, and so are the children of one
//! directory. Both chains are doubly linked. Each entry in a chain has a rank
//! that falls along the chain, so a walk ends.

use crate::index::names::{NameModel, NameStore};
use crate::index::store::{
    lemma_one_flag, EntryFlags, EntryTable, NameId, Slot,
};
use crate::types::{EntryIdx, NIL};
use vstd::prelude::*;

verus! {

/// Ranks of the entries in chains of one sort, and a number above all of them.
pub ghost struct Order {
    pub rank: Map<int, int>,
    pub clock: int,
}

impl Order {
    pub open spec fn at(self, i: int) -> int {
        self.rank[i]
    }

    /// With entry `i` ranked above all others.
    pub open spec fn with_first(self, i: int) -> Order {
        Order { rank: self.rank.insert(i, self.clock), clock: self.clock + 1 }
    }
}

/// The slot holds an entry other than `x`.
pub open spec fn there(e: Seq<Slot>, x: int, i: int) -> bool {
    0 <= i < e.len() && i != x && e[i].live()
}

/// How many of the first `k` entries, `x` aside, have the name.
pub open spec fn users(e: Seq<Slot>, id: int, x: int, k: int) -> int
    decreases k,
{
    if k <= 0 {
        0
    } else {
        users(e, id, x, k - 1) + if there(e, x, k - 1) && e[k - 1].name_id == id {
            1int
        } else {
            0
        }
    }
}

/// Entry `i` is linked into the chain of its name.
pub open spec fn same_node(e: Seq<Slot>, heads: Seq<EntryIdx>, o: Order, x: int, i: int) -> bool {
    let s = e[i];
    &&& 0 <= o.at(i) < o.clock
    &&& s.name_id < heads.len()
    &&& s.next_same != NIL ==> {
        &&& there(e, x, s.next_same as int)
        &&& e[s.next_same as int].name_id == s.name_id
        &&& e[s.next_same as int].prev_same == i
        &&& o.at(s.next_same as int) < o.at(i)
    }
    &&& s.prev_same != NIL ==> {
        &&& there(e, x, s.prev_same as int)
        &&& e[s.prev_same as int].name_id == s.name_id
        &&& e[s.prev_same as int].next_same == i
    }
    &&& s.prev_same == NIL ==> heads[s.name_id as int] == i
}

/// The head of a name is the first entry of its chain.
pub open spec fn head_node(e: Seq<Slot>, heads: Seq<EntryIdx>, x: int, id: int) -> bool {
    heads[id] != NIL ==> {
        &&& there(e, x, heads[id] as int)
        &&& e[heads[id] as int].name_id == id
        &&& e[heads[id] as int].prev_same == NIL
    }
}

/// Every entry but `x` is in the chain of its name, and every name counts its
/// entries; `pend` is counted once more.
pub open spec fn names_ok(e: Seq<Slot>, m: NameModel, o: Order, x: int, pend: int) -> bool {
    &&& m.heads.len() == m.refs.len()
    &&& o.clock >= 0
    &&& pend < m.refs.len()
    &&& forall|i: int| there(e, x, i) ==> #[trigger] same_node(e, m.heads, o, x, i)
    &&& forall|id: int| 0 <= id < m.heads.len() ==> #[trigger] head_node(e, m.heads, x, id)
    &&& forall|id: int|
        0 <= id < m.refs.len() ==> #[trigger] m.refs[id] == users(e, id, x, e.len() as int) + if id
            == pend {
            1int
        } else {
            0
        }
}

/// The entry has lost its directory.
pub open spec fn cut(s: Slot) -> bool {
    s.live() && s.flags.has(EntryFlags::CHAIN_DETACHED)
}

/// The entries that have lost their directory.
pub open spec fn cut_off(e: Seq<Slot>) -> Set<EntryIdx> {
    Set::new(|i: EntryIdx| i < e.len() && cut(e[i as int]))
}

/// The entry is in the chain of its parent's children.
pub open spec fn attached(s: Slot) -> bool {
    s.live() && s.parent != NIL && !s.flags.has(EntryFlags::CHAIN_DETACHED)
}

/// The slot holds a linked child other than `x`.
pub open spec fn kid(e: Seq<Slot>, x: int, i: int) -> bool {
    0 <= i < e.len() && i != x && attached(e[i])
}

/// Entry `i` is linked into the chain of its parent's children.
pub open spec fn kid_node(e: Seq<Slot>, o: Order, x: int, i: int) -> bool {
    let s = e[i];
    &&& 0 <= o.at(i) < o.clock
    &&& s.parent < e.len()
    &&& s.next_child != NIL ==> {
        &&& kid(e, x, s.next_child as int)
        &&& e[s.next_child as int].parent == s.parent
        &&& e[s.next_child as int].prev_child == i
        &&& o.at(s.next_child as int) < o.at(i)
    }
    &&& s.prev_child != NIL ==> {
        &&& kid(e, x, s.prev_child as int)
        &&& e[s.prev_child as int].parent == s.parent
        &&& e[s.prev_child as int].next_child == i
        &&& o.at(i) < o.at(s.prev_child as int)
    }
}

/// The first child of an entry is the first of a chain of its children.
pub open spec fn first_node(e: Seq<Slot>, x: int, p: int) -> bool {
    e[p].first_child != NIL ==> {
        &&& kid(e, x, e[p].first_child as int)
        &&& e[e[p].first_child as int].parent == p
        &&& e[e[p].first_child as int].prev_child == NIL
    }
}

/// The chains of children are linked; `x` is in none.
pub open spec fn kids_ok(e: Seq<Slot>, o: Order, x: int) -> bool {
    &&& o.clock >= 0
    &&& forall|i: int| kid(e, x, i) ==> #[trigger] kid_node(e, o, x, i)
    &&& forall|p: int| 0 <= p < e.len() ==> #[trigger] first_node(e, x, p)
}

/// The parent of linked child `i` is there and has it in its chain.
pub open spec fn exact_node(e: Seq<Slot>, i: int) -> bool {
    let p = e[i].parent as int;
    &&& p < e.len()
    &&& e[p].live()
    &&& e[i].prev_child == NIL ==> e[p].first_child == i
}

/// The chain of an entry's children holds all of them, `x` aside.
pub open spec fn exact(e: Seq<Slot>, x: int) -> bool {
    forall|i: int| kid(e, x, i) ==> #[trigger] exact_node(e, i)
}

/// Everything but the links to entries with the same name is the same.
pub open spec fn same_links_only(a: Seq<Slot>, b: Seq<Slot>) -> bool {
    &&& a.len() == b.len()
    &&& forall|i: int|
        0 <= i < a.len() ==> #[trigger] b[i] == (Slot {
            next_same: b[i].next_same,
            prev_same: b[i].prev_same,
            ..a[i]
        })
}

/// Flags that differ at most in whether the entry is in a chain of children.
pub open spec fn same_flags(f: EntryFlags, g: EntryFlags) -> bool {
    &&& g.has(EntryFlags::DIR) == f.has(EntryFlags::DIR)
    &&& g.has(EntryFlags::TOMBSTONE) == f.has(EntryFlags::TOMBSTONE)
    &&& g.has(EntryFlags::LOST_FOUND) == f.has(EntryFlags::LOST_FOUND)
    &&& g.has(EntryFlags::PLACEHOLDER) == f.has(EntryFlags::PLACEHOLDER)
    &&& g.has(EntryFlags::NON_UNICODE_NAME) == f.has(EntryFlags::NON_UNICODE_NAME)
}

/// Everything but the links to siblings and children is the same.
pub open spec fn child_links_only(a: Seq<Slot>, b: Seq<Slot>) -> bool {
    &&& a.len() == b.len()
    &&& forall|i: int|
        0 <= i < a.len() ==> same_flags(a[i].flags, b[i].flags) && #[trigger] b[i] == (Slot {
            flags: b[i].flags,
            first_child: b[i].first_child,
            next_child: b[i].next_child,
            prev_child: b[i].prev_child,
            ..a[i]
        })
}

pub proof fn lemma_users_same(
    a: Seq<Slot>,
    xa: int,
    b: Seq<Slot>,
    xb: int,
    id: int,
    k: int,
)
    requires
        forall|i: int|
            0 <= i < k ==> (#[trigger] there(a, xa, i) && a[i].name_id == id <==> there(b, xb, i)
                && b[i].name_id == id),
    ensures
        users(a, id, xa, k) == users(b, id, xb, k),
    decreases k,
{
    if k > 0 {
        lemma_users_same(a, xa, b, xb, id, k - 1);
        assert(there(a, xa, k - 1) && a[k - 1].name_id == id <==> there(b, xb, k - 1) && b[k
            - 1].name_id == id);
    }
}

/// Leaving one entry out counts it out.
pub proof fn lemma_users_one(e: Seq<Slot>, id: int, x: int, k: int)
    requires
        0 <= k <= e.len(),
        0 <= x < e.len(),
    ensures
        users(e, id, -1, k) == users(e, id, x, k) + if x < k && e[x].live() && e[x].name_id == id {
            1int
        } else {
            0
        },
    decreases k,
{
    if k > 0 {
        lemma_users_one(e, id, x, k - 1);
    }
}

pub proof fn lemma_users_bound(e: Seq<Slot>, id: int, x: int, k: int)
    requires
        0 <= k,
    ensures
        0 <= users(e, id, x, k) <= k,
        forall|i: int|
            0 <= i < k && #[trigger] there(e, x, i) && e[i].name_id == id ==> users(e, id, x, k) > 0,
    decreases k,
{
    if k > 0 {
        lemma_users_bound(e, id, x, k - 1);
        assert forall|i: int|
            0 <= i < k && #[trigger] there(e, x, i) && e[i].name_id == id implies users(e, id, x, k)
            > 0 by {
            if i < k - 1 {
                assert(there(e, x, i));
            }
        }
    }
}

/// An entry's name is in use.
pub proof fn lemma_name_used(e: Seq<Slot>, m: NameModel, o: Order, x: int, pend: int)
    requires
        names_ok(e, m, o, x, pend),
    ensures
        forall|i: int| #[trigger] there(e, x, i) ==> m.used(e[i].name_id as int),
        pend >= 0 ==> m.used(pend),
{
    assert forall|i: int| #[trigger] there(e, x, i) implies m.used(e[i].name_id as int) by {
        assert(same_node(e, m.heads, o, x, i));
        lemma_users_bound(e, e[i].name_id as int, x, e.len() as int);
        assert(m.refs[e[i].name_id as int] >= 1);
    }
    if pend >= 0 {
        lemma_users_bound(e, pend, x, e.len() as int);
        assert(m.refs[pend] >= 1);
    }
}

/// What the chains of names say depends only on the entries in them.
pub proof fn lemma_names_to(
    a: Seq<Slot>,
    xa: int,
    b: Seq<Slot>,
    xb: int,
    m: NameModel,
    o: Order,
    pend: int,
)
    requires
        names_ok(a, m, o, xa, pend),
        a.len() <= b.len() <= NIL,
        forall|i: int| #[trigger] there(b, xb, i) <==> there(a, xa, i),
        forall|i: int| #[trigger]
            there(b, xb, i) ==> b[i].name_id == a[i].name_id && b[i].next_same == a[i].next_same
                && b[i].prev_same == a[i].prev_same,
    ensures
        names_ok(b, m, o, xb, pend),
{
    assert forall|i: int| there(b, xb, i) implies #[trigger] same_node(b, m.heads, o, xb, i) by {
        assert(same_node(a, m.heads, o, xa, i));
        let n = a[i].next_same as int;
        let p = a[i].prev_same as int;
        assert(there(b, xb, n) <==> there(a, xa, n));
        assert(there(b, xb, p) <==> there(a, xa, p));
    }
    assert forall|id: int| 0 <= id < m.heads.len() implies #[trigger] head_node(
        b,
        m.heads,
        xb,
        id,
    ) by {
        assert(head_node(a, m.heads, xa, id));
        assert(there(b, xb, m.heads[id] as int) <==> there(a, xa, m.heads[id] as int));
    }
    assert forall|id: int| 0 <= id < m.refs.len() implies #[trigger] m.refs[id] == users(
        b,
        id,
        xb,
        b.len() as int,
    ) + if id == pend {
        1int
    } else {
        0
    } by {
        lemma_users_same(a, xa, b, xb, id, a.len() as int);
        lemma_users_tail(b, id, xb, a.len() as int, b.len() as int);
    }
}

proof fn lemma_users_tail(e: Seq<Slot>, id: int, x: int, j: int, k: int)
    requires
        0 <= j <= k,
        forall|i: int| j <= i < k ==> !#[trigger] there(e, x, i),
    ensures
        users(e, id, x, k) == users(e, id, x, j),
    decreases k,
{
    if j < k {
        lemma_users_tail(e, id, x, j, k - 1);
        assert(!there(e, x, k - 1));
    }
}

/// What the chains of children say depends only on the entries in them.
pub proof fn lemma_kids_to(a: Seq<Slot>, xa: int, b: Seq<Slot>, xb: int, o: Order)
    requires
        kids_ok(a, o, xa),
        a.len() <= b.len() <= NIL,
        forall|i: int| #[trigger] kid(b, xb, i) <==> kid(a, xa, i),
        forall|i: int| #[trigger]
            kid(b, xb, i) ==> b[i].parent == a[i].parent && b[i].next_child == a[i].next_child
                && b[i].prev_child == a[i].prev_child,
        forall|p: int|
            0 <= p < b.len() ==> (#[trigger] b[p]).first_child == NIL || (p < a.len()
                && b[p].first_child == a[p].first_child),
    ensures
        kids_ok(b, o, xb),
{
    assert forall|i: int| kid(b, xb, i) implies #[trigger] kid_node(b, o, xb, i) by {
        assert(kid_node(a, o, xa, i));
        let n = a[i].next_child as int;
        let p = a[i].prev_child as int;
        assert(kid(b, xb, n) <==> kid(a, xa, n));
        assert(kid(b, xb, p) <==> kid(a, xa, p));
    }
    assert forall|p: int| 0 <= p < b.len() implies #[trigger] first_node(b, xb, p) by {
        if b[p].first_child != NIL {
            assert(first_node(a, xa, p));
            let f = a[p].first_child as int;
            assert(kid(b, xb, f) <==> kid(a, xa, f));
        }
    }
}

/// Puts an entry first in the chain of its name.
pub(crate) fn link_same(
    entries: &mut EntryTable,
    names: &mut NameStore,
    idx: EntryIdx,
    id: NameId,
    Ghost(o): Ghost<Order>,
)
    requires
        old(entries).wf(),
        old(names).wf(),
        names_ok(old(entries).slots(), old(names).model(), o, idx as int, id as int),
        idx < old(entries).slots().len(),
        old(entries).slots()[idx as int].live(),
        old(entries).slots()[idx as int].name_id == id,
    ensures
        final(entries).wf(),
        final(names).wf(),
        final(entries).free() == old(entries).free(),
        same_links_only(old(entries).slots(), final(entries).slots()),
        names_ok(
            final(entries).slots(),
            final(names).model(),
            o.with_first(idx as int),
            -1,
            -1,
        ),
        final(names).model().bytes == old(names).model().bytes,
        final(names).model().refs == old(names).model().refs,
        final(names).raw_len() == old(names).raw_len(),
        final(names).haystack() == old(names).haystack(),
        final(names).garbage() == old(names).garbage(),
{
    let ghost a = entries.slots();
    let ghost m = names.model();
    proof {
        entries.lemma_wf();
    }
    let old_head = names.chain_head(id);
    assert(head_node(a, m.heads, idx as int, id as int));
    entries.set_next_same(idx, old_head);
    entries.set_prev_same(idx, NIL);
    if old_head != NIL {
        entries.set_prev_same(old_head, idx);
    }
    names.set_chain_head(id, idx);
    proof {
        let b = entries.slots();
        let m2 = names.model();
        let o2 = o.with_first(idx as int);
        assert forall|i: int| there(b, -1, i) implies #[trigger] same_node(b, m2.heads, o2, -1, i) by {
            if i != idx {
                assert(there(a, idx as int, i));
                assert(same_node(a, m.heads, o, idx as int, i));
            } else if old_head != NIL {
                assert(same_node(a, m.heads, o, idx as int, old_head as int));
            }
        }
        assert forall|k: int| 0 <= k < m2.heads.len() implies #[trigger] head_node(
            b,
            m2.heads,
            -1,
            k,
        ) by {
            assert(head_node(a, m.heads, idx as int, k));
        }
        assert forall|k: int| 0 <= k < m2.refs.len() implies #[trigger] m2.refs[k] == users(
            b,
            k,
            -1,
            b.len() as int,
        ) + 0int by {
            assert(m.refs[k] == m2.refs[k]);
            lemma_users_one(b, k, idx as int, b.len() as int);
            lemma_users_same(a, idx as int, b, idx as int, k, b.len() as int);
        }
    }
}

/// Takes an entry out of the chain of its name.
pub(crate) fn unlink_same(
    entries: &mut EntryTable,
    names: &mut NameStore,
    idx: EntryIdx,
    Ghost(o): Ghost<Order>,
)
    requires
        old(entries).wf(),
        old(names).wf(),
        names_ok(old(entries).slots(), old(names).model(), o, -1, -1),
        idx < old(entries).slots().len(),
        old(entries).slots()[idx as int].live(),
    ensures
        final(entries).wf(),
        final(names).wf(),
        final(entries).free() == old(entries).free(),
        same_links_only(old(entries).slots(), final(entries).slots()),
        names_ok(
            final(entries).slots(),
            final(names).model(),
            o,
            idx as int,
            old(entries).slots()[idx as int].name_id as int,
        ),
        final(names).model().bytes == old(names).model().bytes,
        final(names).model().refs == old(names).model().refs,
        final(names).raw_len() == old(names).raw_len(),
        final(names).haystack() == old(names).haystack(),
        final(names).garbage() == old(names).garbage(),
{
    let ghost a = entries.slots();
    let ghost m = names.model();
    proof {
        entries.lemma_wf();
        assert(there(a, -1, idx as int));
        assert(same_node(a, m.heads, o, -1, idx as int));
    }
    let id = entries.name_id(idx);
    let prev = entries.prev_same(idx);
    let next = entries.next_same(idx);
    if prev == NIL {
        names.set_chain_head(id, next);
    } else {
        entries.set_next_same(prev, next);
    }
    if next != NIL {
        entries.set_prev_same(next, prev);
    }
    entries.set_next_same(idx, NIL);
    entries.set_prev_same(idx, NIL);
    proof {
        let b = entries.slots();
        let m2 = names.model();
        let x = idx as int;
        if prev != NIL {
            assert(same_node(a, m.heads, o, -1, prev as int));
        }
        if next != NIL {
            assert(same_node(a, m.heads, o, -1, next as int));
        }
        assert forall|i: int| there(b, x, i) implies #[trigger] same_node(b, m2.heads, o, x, i) by {
            assert(there(a, -1, i));
            assert(same_node(a, m.heads, o, -1, i));
        }
        assert forall|k: int| 0 <= k < m2.heads.len() implies #[trigger] head_node(
            b,
            m2.heads,
            x,
            k,
        ) by {
            assert(head_node(a, m.heads, -1, k));
        }
        assert forall|k: int| 0 <= k < m2.refs.len() implies #[trigger] m2.refs[k] == users(
            b,
            k,
            x,
            b.len() as int,
        ) + if k == id {
            1int
        } else {
            0
        } by {
            assert(m.refs[k] == m2.refs[k]);
            lemma_users_one(a, k, x, b.len() as int);
            lemma_users_same(a, x, b, x, k, b.len() as int);
        }
    }
}

/// Puts an entry first in the chain of its parent's children. An entry without
/// parent is in no chain.
pub(crate) fn link_child(entries: &mut EntryTable, idx: EntryIdx, Ghost(o): Ghost<Order>)
    requires
        old(entries).wf(),
        kids_ok(old(entries).slots(), o, idx as int),
        idx < old(entries).slots().len(),
        old(entries).slots()[idx as int].live(),
        old(entries).slots()[idx as int].parent != NIL ==> old(entries).slots()[idx as int].parent
            < old(entries).slots().len(),
        old(entries).slots()[idx as int].parent == NIL ==> !cut(old(entries).slots()[idx as int]),
        exact(old(entries).slots(), idx as int),
    ensures
        final(entries).wf(),
        final(entries).free() == old(entries).free(),
        child_links_only(old(entries).slots(), final(entries).slots()),
        kids_ok(final(entries).slots(), o.with_first(idx as int), -1),
        exact(final(entries).slots(), -1),
        forall|i: int|
            0 <= i < old(entries).slots().len() && i != idx ==> (
            #[trigger] final(entries).slots()[i]).flags == old(entries).slots()[i].flags,
        cut(final(entries).slots()[idx as int]) <==> {
            let p = old(entries).slots()[idx as int].parent;
            p != NIL && !old(entries).slots()[p as int].live()
        },
{
    let ghost a = entries.slots();
    let ghost x = idx as int;
    let ghost o2 = o.with_first(idx as int);
    proof {
        entries.lemma_wf();
    }
    let parent = entries.parent(idx);
    if parent == NIL {
        proof {
            assert(!attached(a[x]));
            assert forall|i: int| #[trigger] kid(a, -1, i) implies kid(a, x, i) by {}
            lemma_kids_to(a, x, a, -1, o);
            assert forall|i: int| kid(a, -1, i) implies #[trigger] kid_node(a, o2, -1, i) by {
                assert(kid_node(a, o, -1, i));
            }
            assert forall|i: int| kid(a, -1, i) implies #[trigger] exact_node(a, i) by {
                assert(kid(a, x, i));
            }
        }
        return ;
    }
    if entries.is_tombstone(parent) {
        let flags = entries.flags(idx);
        let detached = flags.with(EntryFlags::CHAIN_DETACHED, true);
        proof {
            lemma_one_flag(flags, detached, EntryFlags::CHAIN_DETACHED, true);
        }
        entries.set_flags(idx, detached);
        proof {
            let b = entries.slots();
            assert(!attached(b[x]));
            assert forall|i: int| #[trigger] kid(b, -1, i) <==> kid(a, x, i) by {}
            lemma_kids_to(a, x, b, -1, o);
            assert forall|i: int| kid(b, -1, i) implies #[trigger] kid_node(b, o2, -1, i) by {
                assert(kid_node(b, o, -1, i));
            }
            assert forall|i: int| kid(b, -1, i) implies #[trigger] exact_node(b, i) by {
                assert(kid(a, x, i));
                assert(exact_node(a, i));
            }
        }
        return ;
    }
    let old_head = entries.first_child(parent);
    proof {
        assert(first_node(a, x, parent as int));
        if old_head != NIL {
            assert(kid_node(a, o, x, old_head as int));
        }
    }
    entries.set_next_child(idx, old_head);
    entries.set_prev_child(idx, NIL);
    if old_head != NIL {
        entries.set_prev_child(old_head, idx);
    }
    entries.set_first_child(parent, idx);
    let flags = entries.flags(idx);
    if flags.contains(EntryFlags::CHAIN_DETACHED) {
        let cleared = flags.with(EntryFlags::CHAIN_DETACHED, false);
        proof {
            lemma_one_flag(flags, cleared, EntryFlags::CHAIN_DETACHED, false);
        }
        entries.set_flags(idx, cleared);
    }
    proof {
        let b = entries.slots();
        assert(attached(b[x]));
        assert forall|i: int| kid(b, -1, i) implies #[trigger] kid_node(b, o2, -1, i) by {
            if i != x {
                assert(kid(a, x, i));
                assert(kid_node(a, o, x, i));
            }
        }
        assert forall|p: int| 0 <= p < b.len() implies #[trigger] first_node(b, -1, p) by {
            assert(first_node(a, x, p));
        }
        assert forall|i: int| kid(b, -1, i) implies #[trigger] exact_node(b, i) by {
            if i != x {
                assert(kid(a, x, i));
                assert(exact_node(a, i));
            }
        }
    }
}

/// Takes an entry out of the chain of its parent's children, where it is in
/// one.
pub(crate) fn unlink_child(entries: &mut EntryTable, idx: EntryIdx, Ghost(o): Ghost<Order>)
    requires
        old(entries).wf(),
        kids_ok(old(entries).slots(), o, -1),
        idx < old(entries).slots().len(),
        old(entries).slots()[idx as int].live(),
    ensures
        final(entries).wf(),
        final(entries).free() == old(entries).free(),
        child_links_only(old(entries).slots(), final(entries).slots()),
        kids_ok(final(entries).slots(), o, idx as int),
        exact(old(entries).slots(), -1) ==> exact(final(entries).slots(), idx as int),
        forall|i: int|
            0 <= i < old(entries).slots().len() ==> (#[trigger] final(entries).slots()[i]).flags
                == old(entries).slots()[i].flags,
        forall|p: int|
            #![trigger final(entries).slots()[p]]
            0 <= p < old(entries).slots().len() && !(attached(old(entries).slots()[idx as int])
                && p == old(entries).slots()[idx as int].parent) ==> final(entries).slots()[p].first_child
                == old(entries).slots()[p].first_child,
        attached(old(entries).slots()[idx as int]) && old(entries).slots()[idx as int].prev_child
            == NIL ==> final(entries).slots()[old(entries).slots()[idx as int].parent as int].first_child
            == old(entries).slots()[idx as int].next_child,
{
    let ghost a = entries.slots();
    let ghost x = idx as int;
    proof {
        entries.lemma_wf();
    }
    let parent = entries.parent(idx);
    if parent == NIL || entries.flags(idx).contains(EntryFlags::CHAIN_DETACHED) {
        proof {
            assert(!attached(a[x]));
            assert forall|i: int| #[trigger] kid(a, x, i) <==> kid(a, -1, i) by {}
            lemma_kids_to(a, -1, a, x, o);
            if exact(a, -1) {
                assert forall|i: int| kid(a, x, i) implies #[trigger] exact_node(a, i) by {
                    assert(kid(a, -1, i));
                }
            }
            assert forall|i: int| 0 <= i < a.len() implies same_flags(
                a[i].flags,
                a[i].flags,
            ) by {}
        }
        return ;
    }
    proof {
        assert(kid(a, -1, x));
        assert(kid_node(a, o, -1, x));
    }
    let prev = entries.prev_child(idx);
    let next = entries.next_child(idx);
    if prev == NIL {
        entries.set_first_child(parent, next);
    } else {
        entries.set_next_child(prev, next);
    }
    if next != NIL {
        entries.set_prev_child(next, prev);
    }
    entries.set_next_child(idx, NIL);
    entries.set_prev_child(idx, NIL);
    proof {
        let b = entries.slots();
        if prev != NIL {
            assert(kid_node(a, o, -1, prev as int));
        }
        if next != NIL {
            assert(kid_node(a, o, -1, next as int));
        }
        assert forall|i: int| kid(b, x, i) implies #[trigger] kid_node(b, o, x, i) by {
            assert(kid(a, -1, i));
            assert(kid_node(a, o, -1, i));
        }
        assert forall|p: int| 0 <= p < b.len() implies #[trigger] first_node(b, x, p) by {
            assert(first_node(a, -1, p));
        }
        if exact(a, -1) {
            assert forall|i: int| kid(b, x, i) implies #[trigger] exact_node(b, i) by {
                assert(kid(a, -1, i));
                assert(exact_node(a, i));
                assert(kid_node(a, o, -1, i));
                assert(exact_node(a, x));
            }
        }
    }
}

/// Where the chains hold all children, a directory without first child has
/// none.
pub proof fn lemma_no_kids(e: Seq<Slot>, o: Order, x: int, d: int)
    requires
        kids_ok(e, o, x),
        exact(e, x),
        0 <= d < e.len(),
        e[d].first_child == NIL,
        e.len() <= NIL,
    ensures
        forall|i: int| #[trigger] kid(e, x, i) ==> e[i].parent != d,
{
    assert forall|i: int| #[trigger] kid(e, x, i) implies e[i].parent != d by {
        if e[i].parent == d {
            lemma_kid_has_head(e, o, x, d, i);
        }
    }
}

proof fn lemma_kid_has_head(e: Seq<Slot>, o: Order, x: int, d: int, i: int)
    requires
        kids_ok(e, o, x),
        exact(e, x),
        0 <= d < e.len(),
        e.len() <= NIL,
        kid(e, x, i),
        e[i].parent == d,
    ensures
        e[d].first_child != NIL,
    decreases o.clock - o.at(i),
{
    assert(kid_node(e, o, x, i));
    assert(exact_node(e, i));
    if e[i].prev_child != NIL {
        let p = e[i].prev_child as int;
        assert(kid_node(e, o, x, p));
        lemma_kid_has_head(e, o, x, d, p);
    }
}

/// Takes every child out of the chain of a directory.
pub(crate) fn sever_children(entries: &mut EntryTable, dir: EntryIdx, Ghost(o): Ghost<Order>)
    requires
        old(entries).wf(),
        kids_ok(old(entries).slots(), o, -1),
        exact(old(entries).slots(), -1),
        dir < old(entries).slots().len() < NIL,
    ensures
        final(entries).wf(),
        final(entries).free() == old(entries).free(),
        child_links_only(old(entries).slots(), final(entries).slots()),
        kids_ok(final(entries).slots(), o, -1),
        final(entries).slots()[dir as int].first_child == NIL,
        exact(final(entries).slots(), -1),
        forall|i: int|
            0 <= i < old(entries).slots().len() && old(entries).slots()[i].live() ==> (cut(
                #[trigger] final(entries).slots()[i],
            ) <==> cut(old(entries).slots()[i]) || old(entries).slots()[i].parent == dir),
{
    let ghost a = entries.slots();
    proof {
        entries.lemma_wf();
    }
    let mut cur = entries.first_child(dir);
    while cur != NIL
        invariant
            entries.wf(),
            entries.free() == old(entries).free(),
            a == old(entries).slots(),
            child_links_only(a, entries.slots()),
            kids_ok(entries.slots(), o, -1),
            dir < entries.slots().len(),
            cur == entries.slots()[dir as int].first_child,
            exact(entries.slots(), -1),
            forall|i: int|
                #![trigger entries.slots()[i]]
                0 <= i < a.len() ==> {
                    &&& cut(entries.slots()[i]) ==> cut(a[i]) || a[i].parent == dir
                    &&& cut(a[i]) ==> cut(entries.slots()[i])
                },
        decreases
                if cur == NIL {
                    0
                } else {
                    o.at(cur as int) + 1
                },
    {
        let ghost b = entries.slots();
        let ghost x = cur as int;
        proof {
            entries.lemma_wf();
            assert(first_node(b, -1, dir as int));
            assert(kid(b, -1, x));
            assert(kid_node(b, o, -1, x));
            if b[x].next_child != NIL {
                assert(kid_node(b, o, -1, b[x].next_child as int));
            }
        }
        let ghost next = b[x].next_child;
        unlink_child(entries, cur, Ghost(o));
        let ghost c = entries.slots();
        let flags = entries.flags(cur);
        let detached = flags.with(EntryFlags::CHAIN_DETACHED, true);
        proof {
            lemma_one_flag(flags, detached, EntryFlags::CHAIN_DETACHED, true);
        }
        entries.set_flags(cur, detached);
        proof {
            let d = entries.slots();
            assert(!attached(d[x]));
            assert forall|i: int| #[trigger] kid(d, -1, i) <==> kid(c, x, i) by {}
            lemma_kids_to(c, x, d, -1, o);
            if exact(c, x) {
                assert forall|i: int| kid(d, -1, i) implies #[trigger] exact_node(d, i) by {
                    assert(kid(c, x, i));
                    assert(exact_node(c, i));
                }
            }
            assert forall|i: int| 0 <= i < a.len() implies same_flags(a[i].flags, d[i].flags)
                && #[trigger] d[i] == (Slot {
                flags: d[i].flags,
                first_child: d[i].first_child,
                next_child: d[i].next_child,
                prev_child: d[i].prev_child,
                ..a[i]
            }) by {
                assert(same_flags(a[i].flags, b[i].flags) && b[i] == (Slot {
                    flags: b[i].flags,
                    first_child: b[i].first_child,
                    next_child: b[i].next_child,
                    prev_child: b[i].prev_child,
                    ..a[i]
                }));
                assert(same_flags(b[i].flags, c[i].flags) && c[i] == (Slot {
                    flags: c[i].flags,
                    first_child: c[i].first_child,
                    next_child: c[i].next_child,
                    prev_child: c[i].prev_child,
                    ..b[i]
                }));
            }
            assert(d[dir as int].first_child == next);
            assert forall|i: int|
                #![trigger d[i]]
                0 <= i < a.len() implies (cut(d[i]) ==> cut(a[i]) || a[i].parent == dir) && (cut(
                a[i],
            ) ==> cut(d[i])) by {
                assert(c[i].flags == b[i].flags);
                assert(same_flags(a[i].flags, b[i].flags));
                assert(cut(b[i]) ==> cut(a[i]) || a[i].parent == dir);
            }
        }
        cur = entries.first_child(dir);
    }
    proof {
        let e = entries.slots();
        entries.lemma_wf();
        lemma_no_kids(e, o, -1, dir as int);
        assert forall|i: int| 0 <= i < a.len() && a[i].live() implies (cut(#[trigger] e[i])
            <==> cut(a[i]) || a[i].parent == dir) by {
            assert(same_flags(a[i].flags, e[i].flags));
            assert(e[i].parent == a[i].parent);
            assert(kid(e, -1, i) ==> e[i].parent != dir);
        }
    }
}

} // verus!
