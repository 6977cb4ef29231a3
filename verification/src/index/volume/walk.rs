//! Walks along the chains of an index.

use super::VolumeIndex;
use crate::index::graph;
use crate::index::graph::Order;
use crate::index::store::{EntryTable, NameId, Slot};
use crate::types::{EntryIdx, NIL};
use vstd::prelude::*;

verus! {

/// The entries of a chain from one of them on, given the next of each. The
/// ranks fall along the chain.
pub open spec fn list_from(nexts: Seq<EntryIdx>, o: Order, cur: EntryIdx) -> Seq<EntryIdx>
    decreases
            if cur == NIL {
                0
            } else {
                o.at(cur as int) + 1
            },
{
    if cur == NIL || cur >= nexts.len() || o.at(cur as int) < 0 {
        Seq::empty()
    } else {
        let next = nexts[cur as int];
        if next != NIL && !(0 <= o.at(next as int) < o.at(cur as int)) {
            seq![cur]
        } else {
            seq![cur] + list_from(nexts, o, next)
        }
    }
}

/// Every next entry is one and has a lower rank.
pub open spec fn falling(nexts: Seq<EntryIdx>, o: Order, inside: Set<int>) -> bool {
    &&& nexts.len() <= NIL
    &&& forall|i: int| #[trigger]
        inside.contains(i) ==> 0 <= i < nexts.len() && 0 <= o.at(i) && (nexts[i] == NIL || (
        inside.contains(nexts[i] as int) && o.at(nexts[i] as int) < o.at(i)))
}

/// The entries of a chain are inside, each once, and their ranks fall.
proof fn lemma_list(nexts: Seq<EntryIdx>, o: Order, inside: Set<int>, cur: EntryIdx)
    requires
        falling(nexts, o, inside),
        cur == NIL || inside.contains(cur as int),
    ensures
        forall|k: int|
            #![trigger list_from(nexts, o, cur)[k]]
            0 <= k < list_from(nexts, o, cur).len() ==> inside.contains(
                list_from(nexts, o, cur)[k] as int,
            ) && o.at(list_from(nexts, o, cur)[k] as int) <= o.at(cur as int),
        forall|j: int, k: int|
            #![trigger list_from(nexts, o, cur)[j], list_from(nexts, o, cur)[k]]
            0 <= j < k < list_from(nexts, o, cur).len() ==> o.at(
                list_from(nexts, o, cur)[k] as int,
            ) < o.at(list_from(nexts, o, cur)[j] as int),
        forall|k: int|
            #![trigger list_from(nexts, o, cur)[k]]
            0 <= k < list_from(nexts, o, cur).len() ==> nexts[list_from(nexts, o, cur)[k] as int]
                == (if k + 1 < list_from(nexts, o, cur).len() {
                list_from(nexts, o, cur)[k + 1]
            } else {
                NIL
            }),
        cur != NIL ==> list_from(nexts, o, cur).len() > 0 && list_from(nexts, o, cur)[0] == cur,
        cur == NIL ==> list_from(nexts, o, cur).len() == 0,
    decreases
            if cur == NIL {
                0
            } else {
                o.at(cur as int) + 1
            },
{
    if cur != NIL {
        let next = nexts[cur as int];
        lemma_list(nexts, o, inside, next);
        let rest = list_from(nexts, o, next);
        let all = list_from(nexts, o, cur);
        assert(all == seq![cur] + rest);
        assert forall|k: int| #![trigger all[k]] 0 <= k < all.len() implies inside.contains(
            all[k] as int,
        ) && o.at(all[k] as int) <= o.at(cur as int) && nexts[all[k] as int] == (if k + 1
            < all.len() {
            all[k + 1]
        } else {
            NIL
        }) by {
            if k > 0 {
                assert(all[k] == rest[k - 1]);
                if k + 1 < all.len() {
                    assert(all[k + 1] == rest[k]);
                }
            } else if next != NIL {
                assert(all[1] == rest[0]);
            }
        }
        assert forall|j: int, k: int|
            #![trigger all[j], all[k]]
            0 <= j < k < all.len() implies o.at(all[k] as int) < o.at(all[j] as int) by {
            assert(all[k] == rest[k - 1]);
            if j > 0 {
                assert(all[j] == rest[j - 1]);
            }
        }
    }
}

/// The next of each entry in the chain of its name.
pub open spec fn same_nexts(e: Seq<Slot>) -> Seq<EntryIdx> {
    Seq::new(e.len(), |i: int| e[i].next_same)
}

/// The next of each entry in the chain of its siblings.
pub open spec fn sibling_nexts(e: Seq<Slot>) -> Seq<EntryIdx> {
    Seq::new(e.len(), |i: int| e[i].next_child)
}

/// The entries.
spec fn all_there(e: Seq<Slot>) -> Set<int> {
    Set::new(|i: int| graph::there(e, -1, i))
}

/// The linked children.
spec fn all_kids(e: Seq<Slot>) -> Set<int> {
    Set::new(|i: int| graph::kid(e, -1, i))
}

/// The entries with one name.
pub struct NameChain<'a> {
    entries: &'a EntryTable,
    cur: EntryIdx,
    order: Ghost<Order>,
}

impl<'a> NameChain<'a> {
    closed spec fn wf(&self) -> bool {
        let e = self.entries.slots();
        &&& self.entries.wf()
        &&& falling(same_nexts(e), self.order@, all_there(e))
        &&& self.cur == NIL || all_there(e).contains(self.cur as int)
    }

    /// The walk can go on.
    pub closed spec fn valid(&self) -> bool {
        self.wf()
    }

    /// The entries that are still to come.
    pub closed spec fn rest(&self) -> Seq<EntryIdx> {
        list_from(same_nexts(self.entries.slots()), self.order@, self.cur)
    }

    /// The next entry.
    pub fn next(&mut self) -> (r: Option<EntryIdx>)
        requires
            old(self).valid(),
        ensures
            final(self).valid(),
            match r {
                Some(i) => old(self).rest() == seq![i] + final(self).rest(),
                None => old(self).rest().len() == 0 && *final(self) == *old(self),
            },
    {
        if self.cur == NIL {
            return None;
        }
        let ghost e = self.entries.slots();
        proof {
            assert(all_there(e).contains(self.cur as int));
        }
        let i = self.cur;
        self.cur = self.entries.next_same(i);
        Some(i)
    }
}

impl VolumeIndex {
    /// How many names there are, with those that are no longer in use.
    pub fn name_ids(&self) -> (n: usize)
        requires
            self.wf(),
        ensures
            n == self.ids(),
    {
        self.names.ids()
    }

    /// The entry has the name with this number.
    pub closed spec fn bears(&self, i: EntryIdx, id: NameId) -> bool {
        self.model().has(i as int) && self.entries.slots()[i as int].name_id == id
    }

    /// The entries with a name: all of them, each once.
    pub fn name_chain(&self, id: NameId) -> (c: NameChain<'_>)
        requires
            self.wf(),
            id < self.ids(),
        ensures
            c.valid(),
            c.rest().no_duplicates(),
            forall|i: EntryIdx| #[trigger] c.rest().contains(i) <==> self.bears(i, id),
    {
        let c = NameChain {
            entries: &self.entries,
            cur: self.names.chain_head(id),
            order: Ghost(self.same@),
        };
        proof {
            let e = self.entries.slots();
            let m = self.names.model();
            let o = self.same@;
            let inside = all_there(e);
            let nexts = same_nexts(e);
            self.entries.lemma_wf();
            assert(falling(nexts, o, inside)) by {
                assert forall|i: int| #[trigger] inside.contains(i) implies 0 <= i < nexts.len()
                    && 0 <= o.at(i) && (nexts[i] == NIL || (inside.contains(nexts[i] as int)
                    && o.at(nexts[i] as int) < o.at(i))) by {
                    assert(graph::same_node(e, m.heads, o, -1, i));
                }
            }
            assert(graph::head_node(e, m.heads, -1, id as int));
            lemma_list(nexts, o, inside, c.cur);
            let all = c.rest();
            assert forall|k: int| 0 <= k < all.len() implies e[(#[trigger] all[k]) as int].name_id
                == id by {
                lemma_same_name(e, m, o, id, all, k);
            }
            assert forall|i: EntryIdx| #[trigger] all.contains(i) <==> self.bears(i, id) by {
                if all.contains(i) {
                    let k = choose|k: int| 0 <= k < all.len() && all[k] == i;
                    assert(inside.contains(all[k] as int));
                    self.lemma_live(i as int);
                }
                if self.bears(i, id) {
                    self.lemma_live(i as int);
                    lemma_name_listed(e, m, o, id, all, i);
                }
            }
            assert(all.no_duplicates()) by {
                assert forall|j: int, k: int|
                    0 <= j < all.len() && 0 <= k < all.len() && j != k implies all[j] != all[k] by {
                    if j < k {
                        assert(o.at(all[k] as int) < o.at(all[j] as int));
                    } else {
                        assert(o.at(all[j] as int) < o.at(all[k] as int));
                    }
                }
            }
        }
        c
    }
}

/// The list follows the chain of a name.
spec fn is_list(e: Seq<Slot>, nexts: Seq<EntryIdx>, head: EntryIdx, all: Seq<EntryIdx>) -> bool {
    &&& head == NIL ==> all.len() == 0
    &&& head != NIL ==> all.len() > 0 && all[0] == head
    &&& forall|k: int|
        #![trigger all[k]]
        0 <= k < all.len() ==> nexts[all[k] as int] == (if k + 1 < all.len() {
            all[k + 1]
        } else {
            NIL
        })
}

proof fn lemma_same_name(
    e: Seq<Slot>,
    m: crate::index::names::NameModel,
    o: Order,
    id: NameId,
    all: Seq<EntryIdx>,
    k: int,
)
    requires
        graph::names_ok(e, m, o, -1, -1),
        id < m.heads.len(),
        is_list(e, same_nexts(e), m.heads[id as int], all),
        forall|k: int|
            #![trigger all[k]]
            0 <= k < all.len() ==> graph::there(e, -1, all[k] as int),
        0 <= k < all.len(),
        e.len() < NIL,
    ensures
        e[all[k] as int].name_id == id,
    decreases k,
{
    if k == 0 {
        assert(graph::head_node(e, m.heads, -1, id as int));
    } else {
        lemma_same_name(e, m, o, id, all, k - 1);
        let p = all[k - 1] as int;
        assert(graph::there(e, -1, all[k] as int));
        assert(graph::same_node(e, m.heads, o, -1, p));
        assert(same_nexts(e)[p] == all[k]);
        assert(e[p].next_same == all[k]);
        assert(all[k] != NIL);
    }
}

proof fn lemma_name_listed(
    e: Seq<Slot>,
    m: crate::index::names::NameModel,
    o: Order,
    id: NameId,
    all: Seq<EntryIdx>,
    i: EntryIdx,
)
    requires
        graph::names_ok(e, m, o, -1, -1),
        id < m.heads.len(),
        is_list(e, same_nexts(e), m.heads[id as int], all),
        forall|k: int|
            #![trigger all[k]]
            0 <= k < all.len() ==> graph::there(e, -1, all[k] as int),
        graph::there(e, -1, i as int),
        e[i as int].name_id == id,
        falling(same_nexts(e), o, all_there(e)),
        e.len() < NIL,
    ensures
        all.contains(i),
    decreases o.clock - o.at(i as int),
{
    assert(graph::same_node(e, m.heads, o, -1, i as int));
    let p = e[i as int].prev_same;
    if p == NIL {
        assert(all[0] == i);
    } else {
        assert(graph::same_node(e, m.heads, o, -1, p as int));
        assert(all_there(e).contains(p as int));
        lemma_name_listed(e, m, o, id, all, p);
        let k = choose|k: int| 0 <= k < all.len() && all[k] == p;
        assert(same_nexts(e)[p as int] == i);
        assert(all[k + 1] == i);
    }
}

/// Entry `i` is `n` directories below `root`.
pub open spec fn deep(e: Seq<Slot>, root: EntryIdx, i: EntryIdx, n: int) -> bool
    decreases n,
{
    &&& n >= 1
    &&& graph::kid(e, -1, i as int)
    &&& if e[i as int].parent == root {
        n == 1
    } else {
        n > 1 && deep(e, root, e[i as int].parent, n - 1)
    }
}

/// The entry is below `root`.
pub open spec fn below(e: Seq<Slot>, root: EntryIdx, i: EntryIdx) -> bool {
    exists|n: int| #[trigger] deep(e, root, i, n)
}

/// The directory `m` above an entry.
pub open spec fn up(e: Seq<Slot>, i: EntryIdx, m: int) -> EntryIdx
    decreases m,
{
    if m <= 0 {
        i
    } else {
        up(e, e[i as int].parent, m - 1)
    }
}

proof fn lemma_up(e: Seq<Slot>, root: EntryIdx, i: EntryIdx, n: int, k: int)
    requires
        deep(e, root, i, n),
        1 <= k <= n,
    ensures
        deep(e, root, up(e, i, n - k), k),
    decreases n,
{
    if k < n {
        lemma_up(e, root, e[i as int].parent, n - 1, k);
    }
}

proof fn lemma_up_one(e: Seq<Slot>, i: EntryIdx, m: int)
    requires
        m >= 0,
    ensures
        up(e, i, m + 1) == e[up(e, i, m) as int].parent,
    decreases m,
{
    reveal_with_fuel(up, 2);
    if m > 0 {
        lemma_up_one(e, e[i as int].parent, m - 1);
    }
}

proof fn lemma_deep_unique(e: Seq<Slot>, root: EntryIdx, i: EntryIdx, n: int, m: int)
    requires
        deep(e, root, i, n),
        deep(e, root, i, m),
    ensures
        n == m,
    decreases n,
{
    if n > 1 {
        lemma_deep_unique(e, root, e[i as int].parent, n - 1, m - 1);
    }
}

/// At depth `k`, the way to `i` goes by a sibling that comes later than the
/// one on the way to `a`.
spec fn later_at(
    e: Seq<Slot>,
    o: Order,
    a: EntryIdx,
    na: int,
    i: EntryIdx,
    ni: int,
    k: int,
) -> bool {
    let x = up(e, a, na - k);
    let y = up(e, i, ni - k);
    &&& 1 <= k <= na
    &&& k <= ni
    &&& e[x as int].parent == e[y as int].parent
    &&& o.at(y as int) < o.at(x as int)
}

/// Entry `i` comes after everything below `a`.
spec fn later(e: Seq<Slot>, o: Order, a: EntryIdx, na: int, i: EntryIdx, ni: int) -> bool {
    exists|k: int| #[trigger] later_at(e, o, a, na, i, ni, k)
}

/// Entry `i` is `a`, below it, or comes after that.
spec fn todo(e: Seq<Slot>, o: Order, a: EntryIdx, na: int, i: EntryIdx, ni: int) -> bool {
    (na <= ni && up(e, i, ni - na) == a) || later(e, o, a, na, i, ni)
}

/// The table is linked, and the chains hold all children.
spec fn linked(e: Seq<Slot>, o: Order) -> bool {
    &&& e.len() < NIL
    &&& graph::kids_ok(e, o, -1)
    &&& graph::exact(e, -1)
}

proof fn lemma_sibling_list(e: Seq<Slot>, o: Order, p: EntryIdx) -> (all: Seq<EntryIdx>)
    requires
        linked(e, o),
        p < e.len(),
    ensures
        is_list(e, sibling_nexts(e), e[p as int].first_child, all),
        forall|j: int, k: int|
            #![trigger all[j], all[k]]
            0 <= j < k < all.len() ==> o.at(all[k] as int) < o.at(all[j] as int),
        forall|k: int|
            #![trigger all[k]]
            0 <= k < all.len() ==> graph::kid(e, -1, all[k] as int),
        forall|i: EntryIdx|
            graph::kid(e, -1, i as int) && e[i as int].parent == p ==> #[trigger] all.contains(i),
{
    let nexts = sibling_nexts(e);
    let inside = all_kids(e);
    let head = e[p as int].first_child;
    assert(falling(nexts, o, inside)) by {
        assert forall|i: int| #[trigger] inside.contains(i) implies 0 <= i < nexts.len() && 0
            <= o.at(i) && (nexts[i] == NIL || (inside.contains(nexts[i] as int) && o.at(
            nexts[i] as int,
        ) < o.at(i))) by {
            assert(graph::kid_node(e, o, -1, i));
        }
    }
    assert(graph::first_node(e, -1, p as int));
    lemma_list(nexts, o, inside, head);
    let all = list_from(nexts, o, head);
    assert forall|i: EntryIdx|
        graph::kid(e, -1, i as int) && e[i as int].parent == p implies #[trigger] all.contains(
        i,
    ) by {
        lemma_sibling_listed(e, o, p, all, i);
    }
    all
}

proof fn lemma_sibling_listed(
    e: Seq<Slot>,
    o: Order,
    p: EntryIdx,
    all: Seq<EntryIdx>,
    i: EntryIdx,
)
    requires
        linked(e, o),
        p < e.len(),
        is_list(e, sibling_nexts(e), e[p as int].first_child, all),
        graph::kid(e, -1, i as int),
        e[i as int].parent == p,
    ensures
        all.contains(i),
    decreases o.clock - o.at(i as int),
{
    assert(graph::kid_node(e, o, -1, i as int));
    assert(graph::exact_node(e, i as int));
    let q = e[i as int].prev_child;
    if q == NIL {
        assert(all[0] == i);
    } else {
        assert(graph::kid_node(e, o, -1, q as int));
        lemma_sibling_listed(e, o, p, all, q);
        let k = choose|k: int| 0 <= k < all.len() && all[k] == q;
        assert(sibling_nexts(e)[q as int] == i);
        assert(all[k + 1] == i);
    }
}

/// The first child comes before all its siblings.
proof fn lemma_first_is_first(e: Seq<Slot>, o: Order, p: EntryIdx, b: EntryIdx)
    requires
        linked(e, o),
        p < e.len(),
        graph::kid(e, -1, b as int),
        e[b as int].parent == p,
    ensures
        e[p as int].first_child != NIL,
        b == e[p as int].first_child || o.at(b as int) < o.at(e[p as int].first_child as int),
{
    let all = lemma_sibling_list(e, o, p);
    assert(all.contains(b));
    let k = choose|k: int| 0 <= k < all.len() && all[k] == b;
    assert(all[0] == e[p as int].first_child);
    if k > 0 {
        assert(o.at(all[k] as int) < o.at(all[0] as int));
    }
}

/// A later sibling is the next one, or comes after it.
proof fn lemma_next_is_next(e: Seq<Slot>, o: Order, a: EntryIdx, b: EntryIdx)
    requires
        linked(e, o),
        graph::kid(e, -1, a as int),
        graph::kid(e, -1, b as int),
        e[a as int].parent == e[b as int].parent,
        o.at(b as int) < o.at(a as int),
    ensures
        e[a as int].next_child != NIL,
        b == e[a as int].next_child || o.at(b as int) < o.at(e[a as int].next_child as int),
{
    assert(graph::kid_node(e, o, -1, a as int));
    let p = e[a as int].parent;
    let all = lemma_sibling_list(e, o, p);
    assert(all.contains(a));
    assert(all.contains(b));
    let j = choose|j: int| 0 <= j < all.len() && all[j] == a;
    let k = choose|k: int| 0 <= k < all.len() && all[k] == b;
    if k < j {
        assert(o.at(all[j] as int) < o.at(all[k] as int));
    }
    assert(j < k);
    assert(sibling_nexts(e)[all[j] as int] == all[j + 1]);
    assert(graph::kid(e, -1, all[j + 1] as int));
    if k > j + 1 {
        assert(o.at(all[k] as int) < o.at(all[j + 1] as int));
    }
}

/// Going down to the first child leaves everything but the directory itself.
proof fn lemma_down(
    e: Seq<Slot>,
    o: Order,
    root: EntryIdx,
    a: EntryIdx,
    na: int,
    i: EntryIdx,
    ni: int,
)
    requires
        linked(e, o),
        deep(e, root, a, na),
        a != root,
        e[a as int].first_child != NIL,
        deep(e, root, i, ni),
    ensures
        deep(e, root, e[a as int].first_child, na + 1),
        todo(e, o, e[a as int].first_child, na + 1, i, ni) <==> todo(e, o, a, na, i, ni) && i != a,
{
    let f = e[a as int].first_child;
    assert(graph::first_node(e, -1, a as int));
    assert(graph::kid(e, -1, f as int) && e[f as int].parent == a);
    if i == a {
        lemma_deep_unique(e, root, a, na, ni);
    }
    assert forall|k: int| k <= na implies up(e, f, na + 1 - k) == #[trigger] up(e, a, na - k) by {}
    if todo(e, o, f, na + 1, i, ni) {
        if na + 1 <= ni && up(e, i, ni - na - 1) == f {
            lemma_up_one(e, i, ni - na - 1);
        } else {
            let k = choose|k: int| #[trigger] later_at(e, o, f, na + 1, i, ni, k);
            if k == na + 1 {
                lemma_up_one(e, i, ni - na - 1);
                assert(up(e, f, 0) == f);
            } else {
                assert(up(e, f, na + 1 - k) == up(e, a, na - k));
                assert(later_at(e, o, a, na, i, ni, k));
            }
        }
    }
    if todo(e, o, a, na, i, ni) && i != a {
        if na <= ni && up(e, i, ni - na) == a {
            assert(ni > na);
            let c = up(e, i, ni - na - 1);
            lemma_up_one(e, i, ni - na - 1);
            lemma_up(e, root, i, ni, na + 1);
            lemma_first_is_first(e, o, a, c);
            if c != f {
                assert(up(e, f, 0) == f);
                assert(later_at(e, o, f, na + 1, i, ni, na + 1));
            }
        } else {
            let k = choose|k: int| #[trigger] later_at(e, o, a, na, i, ni, k);
            assert(up(e, f, na + 1 - k) == up(e, a, na - k));
            assert(later_at(e, o, f, na + 1, i, ni, k));
        }
    }
}

/// Behind a directory without children comes what is later.
proof fn lemma_leaf(
    e: Seq<Slot>,
    o: Order,
    root: EntryIdx,
    a: EntryIdx,
    na: int,
    i: EntryIdx,
    ni: int,
)
    requires
        linked(e, o),
        deep(e, root, a, na),
        e[a as int].first_child == NIL,
        deep(e, root, i, ni),
    ensures
        later(e, o, a, na, i, ni) <==> todo(e, o, a, na, i, ni) && i != a,
{
    if i == a {
        lemma_deep_unique(e, root, a, na, ni);
    }
    if na <= ni && up(e, i, ni - na) == a && i != a {
        assert(ni > na);
        let c = up(e, i, ni - na - 1);
        lemma_up_one(e, i, ni - na - 1);
        lemma_up(e, root, i, ni, na + 1);
        graph::lemma_no_kids(e, o, -1, a as int);
        assert(graph::kid(e, -1, c as int));
    }
}

/// Going on to the next sibling leaves what is later.
proof fn lemma_aside(
    e: Seq<Slot>,
    o: Order,
    root: EntryIdx,
    a: EntryIdx,
    na: int,
    i: EntryIdx,
    ni: int,
)
    requires
        linked(e, o),
        deep(e, root, a, na),
        e[a as int].next_child != NIL,
        deep(e, root, i, ni),
    ensures
        deep(e, root, e[a as int].next_child, na),
        todo(e, o, e[a as int].next_child, na, i, ni) <==> later(e, o, a, na, i, ni),
{
    let s = e[a as int].next_child;
    assert(graph::kid_node(e, o, -1, a as int));
    assert(e[s as int].parent == e[a as int].parent);
    assert forall|k: int| k < na implies up(e, s, na - k) == #[trigger] up(e, a, na - k) by {}
    assert(up(e, s, 0) == s && up(e, a, 0) == a);
    if todo(e, o, s, na, i, ni) {
        if na <= ni && up(e, i, ni - na) == s {
            assert(later_at(e, o, a, na, i, ni, na));
        } else {
            let k = choose|k: int| #[trigger] later_at(e, o, s, na, i, ni, k);
            if k < na {
                assert(up(e, s, na - k) == up(e, a, na - k));
            }
            assert(later_at(e, o, a, na, i, ni, k));
        }
    }
    if later(e, o, a, na, i, ni) {
        let k = choose|k: int| #[trigger] later_at(e, o, a, na, i, ni, k);
        if k == na {
            let b = up(e, i, ni - na);
            lemma_up(e, root, i, ni, na);
            lemma_next_is_next(e, o, a, b);
            if b != s {
                assert(later_at(e, o, s, na, i, ni, na));
            }
        } else {
            assert(up(e, s, na - k) == up(e, a, na - k));
            assert(later_at(e, o, s, na, i, ni, k));
        }
    }
}

/// Behind the last sibling comes what is later than the parent.
proof fn lemma_out(
    e: Seq<Slot>,
    o: Order,
    root: EntryIdx,
    a: EntryIdx,
    na: int,
    i: EntryIdx,
    ni: int,
)
    requires
        linked(e, o),
        deep(e, root, a, na),
        e[a as int].next_child == NIL,
        deep(e, root, i, ni),
    ensures
        e[a as int].parent == root ==> !later(e, o, a, na, i, ni),
        e[a as int].parent != root ==> (later(e, o, e[a as int].parent, na - 1, i, ni) <==> later(
            e,
            o,
            a,
            na,
            i,
            ni,
        )),
{
    let p = e[a as int].parent;
    assert(up(e, a, 0) == a);
    assert(!later_at(e, o, a, na, i, ni, na)) by {
        if later_at(e, o, a, na, i, ni, na) {
            let b = up(e, i, ni - na);
            lemma_up(e, root, i, ni, na);
            lemma_next_is_next(e, o, a, b);
        }
    }
    assert forall|k: int| k < na implies up(e, p, na - 1 - k) == #[trigger] up(e, a, na - k) by {}
    if p != root {
        if later(e, o, p, na - 1, i, ni) {
            let k = choose|k: int| #[trigger] later_at(e, o, p, na - 1, i, ni, k);
            assert(up(e, p, na - 1 - k) == up(e, a, na - k));
            assert(later_at(e, o, a, na, i, ni, k));
        }
        if later(e, o, a, na, i, ni) {
            let k = choose|k: int| #[trigger] later_at(e, o, a, na, i, ni, k);
            assert(k < na);
            assert(up(e, p, na - 1 - k) == up(e, a, na - k));
            assert(later_at(e, o, p, na - 1, i, ni, k));
        }
    }
}

/// Everything below a directory is its first child, below it, or later.
proof fn lemma_start(e: Seq<Slot>, o: Order, root: EntryIdx, i: EntryIdx, ni: int)
    requires
        linked(e, o),
        root < e.len(),
        deep(e, root, i, ni),
    ensures
        e[root as int].first_child != NIL,
        deep(e, root, e[root as int].first_child, 1),
        todo(e, o, e[root as int].first_child, 1, i, ni),
{
    let c = up(e, i, ni - 1);
    lemma_up(e, root, i, ni, 1);
    lemma_first_is_first(e, o, root, c);
    let f = e[root as int].first_child;
    assert(graph::first_node(e, -1, root as int));
    assert(up(e, f, 0) == f);
    if c != f {
        assert(later_at(e, o, f, 1, i, ni, 1));
    }
}

/// The entry is still to come when the walk is at `a`.
spec fn left_of(
    e: Seq<Slot>,
    o: Order,
    root: EntryIdx,
    a: EntryIdx,
    na: int,
    i: EntryIdx,
) -> bool {
    a != NIL && exists|n: int| #[trigger] deep(e, root, i, n) && todo(e, o, a, na, i, n)
}

/// A walk through everything below a directory, parents before children.
pub struct SubtreeWalk<'a> {
    entries: &'a EntryTable,
    root: EntryIdx,
    cur: EntryIdx,
    order: Ghost<Order>,
    depth: Ghost<int>,
}

impl<'a> SubtreeWalk<'a> {
    /// The walk can go on.
    pub closed spec fn valid(&self) -> bool {
        let e = self.entries.slots();
        &&& self.entries.wf()
        &&& linked(e, self.order@)
        &&& self.root < e.len()
        &&& !below(e, self.root, self.root)
        &&& self.cur == NIL || deep(e, self.root, self.cur, self.depth@)
    }

    /// The entry is still to come.
    pub closed spec fn left(&self, i: EntryIdx) -> bool {
        left_of(
            self.entries.slots(),
            self.order@,
            self.root,
            self.cur,
            self.depth@,
            i,
        )
    }

    /// The next entry.
    #[verifier::rlimit(30)]
    pub fn next(&mut self) -> (r: Option<EntryIdx>)
        requires
            old(self).valid(),
        ensures
            final(self).valid(),
            match r {
                Some(x) => {
                    &&& old(self).left(x)
                    &&& forall|i: EntryIdx| #[trigger]
                        final(self).left(i) <==> old(self).left(i) && i != x
                },
                None => forall|i: EntryIdx| !#[trigger] old(self).left(i),
            },
            r is None ==> *final(self) == *old(self),
    {
        if self.cur == NIL {
            return None;
        }
        let ghost e = self.entries.slots();
        let ghost o = self.order@;
        let ghost root = self.root;
        let ghost n0 = self.depth@;
        let yielded = self.cur;
        proof {
            assert(yielded != root) by {
                if yielded == root {
                    assert(below(e, root, root));
                }
            }
            assert(up(e, yielded, 0) == yielded);
            assert(todo(e, o, yielded, n0, yielded, n0));
            assert(old(self).left(yielded));
        }
        let down = self.entries.first_child(yielded);
        if down != NIL {
            self.cur = down;
            proof {
                self.depth@ = n0 + 1;
                lemma_down(e, o, root, yielded, n0, yielded, n0);
                assert forall|i: EntryIdx| #[trigger]
                    self.left(i) <==> old(self).left(i) && i != yielded by {
                    assert(self.left(i) == left_of(e, o, root, down, n0 + 1, i));
                    assert(old(self).left(i) == left_of(e, o, root, yielded, n0, i));
                    if self.left(i) {
                        let n = choose|n: int| #[trigger]
                            deep(e, root, i, n) && todo(e, o, down, n0 + 1, i, n);
                        lemma_down(e, o, root, yielded, n0, i, n);
                    }
                    if old(self).left(i) && i != yielded {
                        let n = choose|n: int| #[trigger]
                            deep(e, root, i, n) && todo(e, o, yielded, n0, i, n);
                        lemma_down(e, o, root, yielded, n0, i, n);
                    }
                }
            }
        } else {
            let mut at = yielded;
            let ghost mut n: int = n0;
            proof {
                assert forall|i: EntryIdx, ni: int| #[trigger]
                    deep(e, root, i, ni) implies (later(e, o, at, n, i, ni) <==> todo(
                    e,
                    o,
                    yielded,
                    n0,
                    i,
                    ni,
                ) && i != yielded) by {
                    lemma_leaf(e, o, root, yielded, n0, i, ni);
                }
            }
            loop
                invariant_except_break
                    self.entries.wf(),
                    e == self.entries.slots(),
                    o == self.order@,
                    root == self.root,
                    root < e.len(),
                    linked(e, o),
                    deep(e, root, at, n),
                    forall|i: EntryIdx, ni: int| #[trigger]
                        deep(e, root, i, ni) ==> (later(e, o, at, n, i, ni) <==> todo(
                            e,
                            o,
                            yielded,
                            n0,
                            i,
                            ni,
                        ) && i != yielded),
                invariant
                    *self == (SubtreeWalk { cur: self.cur, ..*old(self) }),
                ensures
                    self.cur == NIL || deep(e, root, self.cur, n),
                    forall|i: EntryIdx, ni: int| #[trigger]
                        deep(e, root, i, ni) ==> (self.cur != NIL && todo(
                            e,
                            o,
                            self.cur,
                            n,
                            i,
                            ni,
                        ) <==> todo(e, o, yielded, n0, i, ni) && i != yielded),
                decreases n,
            {
                let sibling = self.entries.next_child(at);
                if sibling != NIL {
                    proof {
                        lemma_aside(e, o, root, at, n, at, n);
                        assert forall|i: EntryIdx, ni: int| #[trigger]
                            deep(e, root, i, ni) implies (todo(e, o, sibling, n, i, ni) <==> later(
                            e,
                            o,
                            at,
                            n,
                            i,
                            ni,
                        )) by {
                            lemma_aside(e, o, root, at, n, i, ni);
                        }
                    }
                    assert(graph::kid(e, -1, sibling as int));
                    self.cur = sibling;
                    break;
                }
                let ghost a = at;
                assert(graph::kid_node(e, o, -1, at as int));
                at = self.entries.parent(at);
                proof {
                    assert forall|i: EntryIdx, ni: int| #[trigger]
                        deep(e, root, i, ni) implies (at == root ==> !later(e, o, a, n, i, ni)) && (
                    at != root ==> (later(e, o, at, n - 1, i, ni) <==> later(
                        e,
                        o,
                        a,
                        n,
                        i,
                        ni,
                    ))) by {
                        lemma_out(e, o, root, a, n, i, ni);
                    }
                }
                if at == self.root || at == NIL {
                    self.cur = NIL;
                    break;
                }
                proof {
                    n = n - 1;
                }
            }
            proof {
                self.depth@ = n;
                assert forall|i: EntryIdx| #[trigger]
                    self.left(i) <==> old(self).left(i) && i != yielded by {
                    assert(self.left(i) == left_of(e, o, root, self.cur, n, i));
                    assert(old(self).left(i) == left_of(e, o, root, yielded, n0, i));
                    if self.left(i) {
                        let ni = choose|ni: int| #[trigger]
                            deep(e, root, i, ni) && todo(e, o, self.cur, n, i, ni);
                        assert(deep(e, root, i, ni));
                    }
                    if old(self).left(i) && i != yielded {
                        let ni = choose|ni: int| #[trigger]
                            deep(e, root, i, ni) && todo(e, o, yielded, n0, i, ni);
                        assert(deep(e, root, i, ni));
                    }
                }
            }
        }
        Some(yielded)
    }
}

impl VolumeIndex {
    /// The entry is below the directory, by parents that have it in their
    /// chains of children.
    pub closed spec fn is_below(&self, root: EntryIdx, i: EntryIdx) -> bool {
        below(self.entries.slots(), root, i)
    }

    /// A walk through everything below a directory. The directory is not
    /// below itself.
    pub fn subtree_entries(&self, root: EntryIdx) -> (w: SubtreeWalk<'_>)
        requires
            self.wf(),
            root < self.model().slots.len(),
            !self.is_below(root, root),
        ensures
            w.valid(),
            forall|i: EntryIdx| #[trigger] w.left(i) <==> self.is_below(root, i),
    {
        let w = SubtreeWalk {
            entries: &self.entries,
            root,
            cur: self.entries.first_child(root),
            order: Ghost(self.kids@),
            depth: Ghost(1),
        };
        proof {
            let e = self.entries.slots();
            let o = self.kids@;
            if w.cur != NIL {
                assert(graph::first_node(e, -1, root as int));
                assert(deep(e, root, w.cur, 1));
            }
            assert forall|i: EntryIdx| #[trigger] w.left(i) <==> self.is_below(root, i) by {
                assert(w.left(i) == left_of(e, o, root, w.cur, 1, i));
                if self.is_below(root, i) {
                    let n = choose|n: int| #[trigger] deep(e, root, i, n);
                    lemma_start(e, o, root, i, n);
                }
            }
        }
        w
    }

    /// What is below a directory is an entry whose parent is the directory or
    /// below it.
    pub proof fn law_below_means_parents(&self, root: EntryIdx, i: EntryIdx)
        requires
            self.wf(),
            self.is_below(root, i),
        ensures
            self.model().has(i as int),
            !self.model().detached.contains(i),
            self.model().ent(i).parent == root || self.is_below(root, self.model().ent(i).parent),
    {
        let e = self.entries.slots();
        let n = choose|n: int| #[trigger] deep(e, root, i, n);
        self.lemma_live(i as int);
        if e[i as int].parent != root {
            assert(deep(e, root, e[i as int].parent, n - 1));
        }
    }
}

} // verus!
