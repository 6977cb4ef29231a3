//! The journal may be read again: what it tells of a second time changes
//! nothing.

use crate::index::laws;
use crate::index::model;
use crate::index::model::{Applied, Ent, Volume};
use crate::index::scene;
use crate::index::scene::{Link, Spot, Up};
use crate::index::standins;
use crate::types;
use crate::types::{EntryIdx, Frn, NIL};
use crate::usn::ops::OpModel;
use crate::usn::record::RecordModel;
use vstd::prelude::*;

verus! {

impl Volume {
    /// The entry is in the chain of its record number.
    pub open spec fn chained(self, i: EntryIdx) -> bool {
        let r = types::record_of(self.ent(i).frn.0);
        self.chains.dom().contains(r) && self.chains[r].contains(i)
    }

    /// The link of the same file behind an entry in its chain, or the sentinel.
    pub open spec fn link_behind(self, i: EntryIdx) -> EntryIdx {
        let c = self.chains[types::record_of(self.ent(i).frn.0)];
        let k = c.index_of(i);
        if k + 1 < c.len() {
            c[k + 1]
        } else {
            NIL
        }
    }

    /// Where an entry stands.
    pub open spec fn spot(self, i: EntryIdx) -> Spot {
        let r = types::record_of(self.ent(i).frn.0);
        if self.chained(i) {
            Spot::At { record: r, place: self.chains[r].index_of(i) }
        } else {
            Spot::Loose { slot: i }
        }
    }

    /// An entry stands there.
    pub open spec fn stands(self, p: Spot) -> bool {
        match p {
            Spot::At { record, place } => self.chains.dom().contains(record) && 0 <= place
                < self.chains[record].len(),
            Spot::Loose { slot } => self.has(slot as int) && !self.chained(slot),
        }
    }

    /// The slot of the entry that stands there.
    pub open spec fn slot_at(self, p: Spot) -> EntryIdx {
        match p {
            Spot::At { record, place } => self.chains[record][place],
            Spot::Loose { slot } => slot,
        }
    }

    /// What an entry is below.
    pub open spec fn up(self, i: EntryIdx) -> Up {
        if self.detached.contains(i) || self.ent(i).parent == i {
            Up::Lost
        } else if self.ent(i).parent == NIL {
            Up::Top
        } else {
            Up::In { spot: self.spot(self.ent(i).parent) }
        }
    }

    /// An entry without its slot.
    pub open spec fn link(self, i: EntryIdx) -> Link {
        let x = self.ent(i);
        Link {
            frn: x.frn,
            up: self.up(i),
            name: x.name,
            lossy: x.lossy,
            dir: x.dir,
            placeholder: x.placeholder,
            size: x.size,
            mtime: x.mtime,
        }
    }

    /// What the index shows, whatever slots its entries are in.
    pub open spec fn scene(self) -> Map<Spot, Link> {
        Map::new(|p: Spot| self.stands(p), |p: Spot| self.link(self.slot_at(p)))
    }

    /// Where the lost and found directory stands.
    pub open spec fn lost(self) -> Spot {
        Spot::Loose { slot: self.lost_found }
    }

    /// The directory of an entry is there, unless the entry has lost it.
    pub open spec fn grounded(self) -> bool {
        &&& self.ok()
        &&& forall|i: EntryIdx| #[trigger]
            self.has(i as int) && !self.detached.contains(i) && self.ent(i).parent != NIL
                ==> self.has(self.ent(i).parent as int)
    }
}

/// An entry is found where it stands.
pub proof fn lemma_spot(v: Volume, i: EntryIdx)
    requires
        v.ok(),
        v.has(i as int),
    ensures
        v.stands(v.spot(i)),
        v.slot_at(v.spot(i)) == i,
{
    if v.chained(i) {
        let c = v.chains[types::record_of(v.ent(i).frn.0)];
        assert(c.contains(i));
    }
}

/// What is found at a spot stands there.
pub proof fn lemma_slot(v: Volume, p: Spot)
    requires
        v.ok(),
        v.stands(p),
    ensures
        v.has(v.slot_at(p) as int),
        v.spot(v.slot_at(p)) == p,
{
    if let Spot::At { record, place } = p {
        let c = v.chains[record];
        assert(v.chain_ok(record, c));
        let i = c[place];
        assert(v.has(i as int));
        assert(c.contains(i));
        assert(c.index_of(i) == place);
    }
}

/// The record number of a file leads to it in the index and in its scene.
proof fn lemma_held(v: Volume, f: Frn)
    requires
        v.ok(),
    ensures
        scene::held(v.scene(), f) <==> v.head(f) is Some,
        v.head(f) is Some ==> v.stands(scene::first(f)) && v.slot_at(scene::first(f)) == v.head(
            f,
        )->0 && v.has(v.head(f)->0 as int) && v.spot(v.head(f)->0) == scene::first(f),
        v.stands(scene::first(f)) <==> v.chains.dom().contains(types::record_of(f.0)),
        v.scene().dom().contains(scene::second(f)) <==> v.chains.dom().contains(
            types::record_of(f.0),
        ) && v.chains[types::record_of(f.0)].len() > 1,
{
    let r = types::record_of(f.0);
    if v.chains.dom().contains(r) {
        assert(v.chain_ok(r, v.chains[r]));
        lemma_slot(v, scene::first(f));
    }
}

/// The lost and found directory is there, and what is there fits together.
pub proof fn lemma_scene_whole(v: Volume)
    requires
        v.grounded(),
    ensures
        scene::whole(v.scene()),
        v.scene().dom().contains(v.lost()),
{
    let m = v.scene();
    let lf = v.lost_found;
    assert(!v.chained(lf)) by {
        let r = types::record_of(v.ent(lf).frn.0);
        if v.chained(lf) {
            assert(v.chain_ok(r, v.chains[r]));
            let k = choose|k: int| 0 <= k < v.chains[r].len() && v.chains[r][k] == lf;
            assert(v.chains[r][k] != lf);
        }
    }
    assert forall|p: Spot| #[trigger] m.dom().contains(p) && p is At implies m.dom().contains(
        Spot::At { record: p->record, place: 0 },
    ) by {}
    assert forall|p: Spot| #[trigger] m.dom().contains(p) && m[p].up is In implies m.dom().contains(
        m[p].up->spot,
    ) by {
        let i = v.slot_at(p);
        lemma_slot(v, p);
        lemma_spot(v, v.ent(i).parent);
    }
}

/// What counts writes and the like does not show.
proof fn lemma_scene_same(v: Volume, w: Volume)
    requires
        v.grounded(),
        w.slots == v.slots,
        w.free == v.free,
        w.chains == v.chains,
        w.detached == v.detached,
        w.lost_found == v.lost_found,
    ensures
        w.grounded(),
        w.scene() == v.scene(),
        w.root == v.root && v.one_root() ==> w.one_root(),
        forall|i: EntryIdx| #[trigger] w.spot(i) == v.spot(i),
{
    laws::lemma_recounted_ok(v, w);
    assert forall|i: EntryIdx| #[trigger] w.spot(i) == v.spot(i) by {}
    assert forall|i: EntryIdx| #[trigger]
        w.has(i as int) && !w.detached.contains(i) && w.ent(i).parent != NIL implies w.has(
        w.ent(i).parent as int,
    ) by {
        assert(v.has(i as int));
    }
    if w.root == v.root && v.one_root() {
        assert forall|i: EntryIdx| #[trigger] w.has(i as int) && w.ent(i).parent == NIL implies i
            == w.root || i == w.lost_found by {
            assert(v.has(i as int));
        }
    }
    assert(w.scene() =~= v.scene());
}

/// What ending entries does to those that are left.
pub(super) proof fn lemma_ended_detached(v: Volume, c: Seq<EntryIdx>)
    requires
        forall|k: int| 0 <= k < c.len() ==> #[trigger] c[k] < v.slots.len(),
        v.slots.len() < NIL,
    ensures
        v.all_ended(c).root == v.root,
        forall|i: EntryIdx|
            v.has(i as int) && !c.contains(i) ==> #[trigger] v.all_ended(c).detached.contains(i)
                == (v.detached.contains(i) || c.contains(v.ent(i).parent)),
    decreases c.len(),
{
    if c.len() > 0 {
        let d = c.drop_last();
        let x = c.last();
        assert forall|k: int| 0 <= k < d.len() implies #[trigger] d[k] < v.slots.len() by {
            assert(c[k] < v.slots.len());
        }
        lemma_ended_detached(v, d);
        laws::lemma_all_ended(v, d);
        let a = v.all_ended(d);
        assert forall|i: EntryIdx| #[trigger] c.contains(i) <==> d.contains(i) || i == x by {
            if c.contains(i) {
                let k = choose|k: int| 0 <= k < c.len() && c[k] == i;
                if k < d.len() {
                    assert(d[k] == i);
                }
            }
            if d.contains(i) {
                let k = choose|k: int| 0 <= k < d.len() && d[k] == i;
                assert(c[k] == i);
            }
            assert(c[c.len() - 1] == x);
        }
        assert forall|i: EntryIdx|
            v.has(i as int) && !c.contains(i) implies #[trigger] v.all_ended(c).detached.contains(i)
            == (v.detached.contains(i) || c.contains(v.ent(i).parent)) by {
            assert(!d.contains(i));
            assert(a.slots[i as int] == v.slots[i as int]);
            assert(a.detached.contains(i) == (v.detached.contains(i) || d.contains(
                v.ent(i).parent,
            )));
            assert(v.all_ended(c).detached == a.killed(x).detached);
            assert(c.contains(v.ent(i).parent) <==> d.contains(v.ent(i).parent) || v.ent(i).parent
                == x);
        }
    }
}

/// Ending the entries of a record number clears it.
proof fn lemma_scene_dropped(v: Volume, r: u64)
    requires
        v.grounded(),
        v.chains.dom().contains(r),
    ensures
        v.dropped(r).grounded(),
        v.dropped(r).scene() == scene::cleared(v.scene(), r),
        v.dropped(r).lost_found == v.lost_found,
        v.dropped(r).root == v.root,
        v.dropped(r).slots.len() == v.slots.len(),
        !v.dropped(r).chains.dom().contains(r),
        forall|i: EntryIdx| v.chains[r].contains(i) ==> !#[trigger] v.dropped(r).has(i as int),
        v.one_root() ==> v.dropped(r).one_root(),
        forall|i: EntryIdx|
            v.has(i as int) && !v.chains[r].contains(i) ==> v.dropped(r).has(i as int)
                && #[trigger] v.dropped(r).spot(i) == v.spot(i),
{
    let c = v.chains[r];
    let w = v.dropped(r);
    assert(v.chain_ok(r, c));
    assert forall|k: int| 0 <= k < c.len() implies #[trigger] c[k] < v.slots.len() by {
        assert(v.has(c[k] as int));
    }
    assert forall|k: int| 0 <= k < c.len() implies v.has(#[trigger] c[k] as int) by {}
    laws::lemma_dropped_ok(v, r);
    laws::lemma_all_ended(v, c);
    laws::lemma_ended_free(v, c);
    lemma_ended_detached(v, c);
    assert forall|i: EntryIdx| #[trigger] w.has(i as int) <==> v.has(i as int) && !c.contains(i) by {
        if i < v.slots.len() {
            assert(v.all_ended(c).slots[i as int] == w.slots[i as int]);
        }
    }
    assert forall|i: EntryIdx| #[trigger] w.has(i as int) implies w.ent(i) == v.ent(i) by {
        assert(v.all_ended(c).slots[i as int] == w.slots[i as int]);
    }
    // An entry of the record number is one of its chain, or in none.
    assert forall|i: EntryIdx| v.has(i as int) && !c.contains(i) implies w.has(i as int)
        && #[trigger] w.spot(i) == v.spot(i) by {
        assert(w.has(i as int));
    }
    assert forall|i: EntryIdx| #[trigger]
        w.has(i as int) && !w.detached.contains(i) && w.ent(i).parent != NIL implies w.has(
        w.ent(i).parent as int,
    ) by {
        assert(v.has(i as int));
        assert(v.all_ended(c).detached.contains(i) == w.detached.contains(i));
        assert(w.has(v.ent(i).parent as int));
    }
    if v.one_root() {
        assert forall|i: EntryIdx| #[trigger] w.has(i as int) && w.ent(i).parent == NIL implies i
            == w.root || i == w.lost_found by {
            assert(v.has(i as int));
        }
    }
    let a = w.scene();
    let b = scene::cleared(v.scene(), r);
    assert forall|p: Spot| a.dom().contains(p) == b.dom().contains(p) by {
        match p {
            Spot::At { record, place } => {},
            Spot::Loose { slot } => {
                if v.has(slot as int) && c.contains(slot) {
                    let k = choose|k: int| 0 <= k < c.len() && c[k] == slot;
                    assert(types::record_of(v.ent(c[k]).frn.0) == r);
                    assert(v.chained(slot));
                }
                assert(w.has(slot as int) <==> v.has(slot as int) && !c.contains(slot));
                if w.has(slot as int) {
                    assert(w.spot(slot) == v.spot(slot));
                }
            },
        }
    }
    assert forall|p: Spot| a.dom().contains(p) implies a[p] == b[p] by {
        let i = v.slot_at(p);
        lemma_slot(v, p);
        lemma_slot(w, p);
        assert(w.slot_at(p) == i);
        assert(w.has(i as int));
        assert(v.all_ended(c).detached.contains(i) == w.detached.contains(i));
        let q = v.ent(i).parent;
        if !v.detached.contains(i) && q != NIL {
            assert(v.has(q as int));
            if c.contains(q) {
                let k = choose|k: int| 0 <= k < c.len() && c[k] == q;
                assert(types::record_of(v.ent(c[k]).frn.0) == r);
                assert(scene::within(v.spot(q), r));
            } else {
                assert(w.spot(q) == v.spot(q));
                if scene::within(v.spot(q), r) {
                    lemma_spot(v, q);
                    assert(c.contains(q));
                }
            }
        }
    }
    assert(a =~= b);
}

/// Making a record number free for a file clears it.
proof fn lemma_scene_reclaimed(v: Volume, r: u64)
    requires
        v.grounded(),
    ensures
        v.reclaimed(r).grounded(),
        v.reclaimed(r).scene() == scene::cleared(v.scene(), r),
        v.reclaimed(r).lost_found == v.lost_found,
        v.reclaimed(r).root == v.root,
        v.reclaimed(r).slots.len() == v.slots.len(),
        !v.reclaimed(r).chains.dom().contains(r),
        forall|i: EntryIdx|
            v.chains.dom().contains(r) && v.chains[r].contains(i) ==> !#[trigger] v.reclaimed(
                r,
            ).has(i as int),
        v.one_root() ==> v.reclaimed(r).one_root(),
        forall|i: EntryIdx|
            v.has(i as int) && !(v.chains.dom().contains(r) && v.chains[r].contains(i))
                ==> v.reclaimed(r).has(i as int) && #[trigger] v.reclaimed(r).spot(i) == v.spot(i),
{
    let w = v.reclaimed(r);
    if v.chains.dom().contains(r) {
        let a = v.dropped(r);
        lemma_scene_dropped(v, r);
        lemma_scene_same(a, w);
        assert forall|i: EntryIdx| v.chains[r].contains(i) implies !#[trigger] w.has(i as int) by {
            assert(!a.has(i as int));
        }
        assert forall|i: EntryIdx| v.has(i as int) && !v.chains[r].contains(i) implies w.has(
            i as int,
        ) && #[trigger] w.spot(i) == v.spot(i) by {
            assert(a.spot(i) == v.spot(i));
            assert(w.spot(i) == a.spot(i));
        }
    } else {
        let m = v.scene();
        lemma_scene_whole(v);
        assert(m =~= scene::cleared(m, r)) by {
            assert forall|p: Spot| #[trigger] m.dom().contains(p) implies !scene::within(p, r)
                && scene::severed(m[p], r) == m[p] by {
                if scene::hangs(m[p], r) {
                    assert(m.dom().contains(m[p].up->spot));
                }
            }
        }
    }
}

/// The link of a new entry.
pub open spec fn link_of(x: Ent, up: Up) -> Link {
    Link {
        frn: x.frn,
        up,
        name: x.name,
        lossy: x.lossy,
        dir: x.dir,
        placeholder: x.placeholder,
        size: x.size,
        mtime: x.mtime,
    }
}

/// What a new entry is below.
spec fn up_of(v: Volume, parent: EntryIdx) -> Up {
    if v.has(parent as int) {
        Up::In { spot: v.spot(parent) }
    } else {
        Up::Lost
    }
}

/// A new file of one link is the first of its chain.
proof fn lemma_scene_filed(v: Volume, x: Ent)
    requires
        v.grounded(),
        v.slots.len() + 1 < NIL,
        !v.chains.dom().contains(types::record_of(x.frn.0)),
        x.parent != NIL,
    ensures
        ({
            let w = v.filed(x);
            &&& w.grounded()
            &&& w.scene() == v.scene().insert(scene::first(x.frn), link_of(x, up_of(v, x.parent)))
            &&& w.lost_found == v.lost_found
            &&& w.root == v.root
            &&& w.slots.len() <= v.slots.len() + 1
            &&& w.head(x.frn) == Some(v.next_slot())
            &&& v.one_root() ==> w.one_root()
            &&& forall|i: EntryIdx|
                v.has(i as int) ==> w.has(i as int) && #[trigger] w.spot(i) == v.spot(i)
        }),
{
    let w = v.filed(x);
    let n = v.next_slot();
    let r = types::record_of(x.frn.0);
    laws::lemma_new_slot(v);
    laws::lemma_filed(v, x);
    lemma_held(w, x.frn);
    assert(w.chains[r] == seq![n]);
    assert(w.spot(n) == scene::first(x.frn)) by {
        assert(seq![n][0] == n);
        lemma_held(w, x.frn);
    }
    assert forall|i: EntryIdx| v.has(i as int) implies w.has(i as int) && #[trigger] w.spot(i)
        == v.spot(i) by {
        assert(w.slots[i as int] == v.slots[i as int]);
        let q = types::record_of(v.ent(i).frn.0);
        if q == r {
            assert(!w.chains[r].contains(i)) by {
                assert(i != n);
                assert(seq![n].len() == 1);
            }
        }
    }
    assert forall|i: EntryIdx| #[trigger]
        w.has(i as int) && !w.detached.contains(i) && w.ent(i).parent != NIL implies w.has(
        w.ent(i).parent as int,
    ) by {
        if i != n {
            assert(v.has(i as int));
            assert(w.slots[i as int] == v.slots[i as int]);
            assert(v.has(v.ent(i).parent as int));
        }
    }
    if v.one_root() {
        assert forall|i: EntryIdx| #[trigger] w.has(i as int) && w.ent(i).parent == NIL implies i
            == w.root || i == w.lost_found by {
            if i != n {
                assert(v.has(i as int));
                assert(w.slots[i as int] == v.slots[i as int]);
            }
        }
    }
    let a = w.scene();
    let b = v.scene().insert(scene::first(x.frn), link_of(x, up_of(v, x.parent)));
    assert forall|p: Spot| a.dom().contains(p) == b.dom().contains(p) by {
        match p {
            Spot::At { record, place } => {},
            Spot::Loose { slot } => {
                if slot != n && v.has(slot as int) {
                    assert(w.spot(slot) == v.spot(slot));
                }
                assert(w.has(slot as int) <==> v.has(slot as int) || slot == n);
                if slot == n {
                    assert(w.chained(n));
                }
            },
        }
    }
    assert forall|p: Spot| a.dom().contains(p) implies a[p] == b[p] by {
        if p == scene::first(x.frn) {
            assert(w.slot_at(p) == n);
            assert(w.ent(n) == x);
            if v.has(x.parent as int) {
                assert(!w.detached.contains(n));
                assert(w.spot(x.parent) == v.spot(x.parent));
            } else {
                assert(x.parent == n || w.detached.contains(n));
            }
        } else {
            let i = v.slot_at(p);
            assert(w.slot_at(p) == i);
            lemma_slot(v, p);
            assert(w.slots[i as int] == v.slots[i as int]);
            assert(w.detached.contains(i) == v.detached.contains(i));
            let q = v.ent(i).parent;
            if !v.detached.contains(i) && q != NIL {
                assert(v.has(q as int));
                assert(w.spot(q) == v.spot(q));
            }
        }
    }
    assert(a =~= b);
}

/// A new parent and name show in the link.
proof fn lemma_scene_rewritten(
    v: Volume,
    h: EntryIdx,
    parent: EntryIdx,
    name: Seq<u8>,
    lossy: bool,
    dir: bool,
)
    requires
        v.grounded(),
        v.has(h as int),
        v.has(parent as int),
    ensures
        ({
            let w = v.rewritten(h, parent, name, lossy, dir);
            let p = v.spot(h);
            &&& w.grounded()
            &&& w.scene() == v.scene().insert(
                p,
                Link {
                    up: if parent == h {
                        Up::Lost
                    } else {
                        Up::In { spot: v.spot(parent) }
                    },
                    name,
                    lossy,
                    dir,
                    placeholder: false,
                    ..v.scene()[p]
                },
            )
            &&& w.lost_found == v.lost_found
            &&& w.root == v.root
            &&& w.slots.len() == v.slots.len()
            &&& v.one_root() ==> w.one_root()
            &&& forall|i: EntryIdx|
                v.has(i as int) ==> w.has(i as int) && #[trigger] w.spot(i) == v.spot(i)
        }),
{
    let w = v.rewritten(h, parent, name, lossy, dir);
    laws::lemma_rewritten(v, h, parent, name, lossy, dir);
    lemma_spot(v, h);
    assert forall|i: EntryIdx| #[trigger] w.has(i as int) == v.has(i as int) by {}
    assert forall|i: EntryIdx| v.has(i as int) implies w.has(i as int) && #[trigger] w.spot(i)
        == v.spot(i) by {
        if i != h {
            assert(w.slots[i as int] == v.slots[i as int]);
        }
    }
    assert forall|i: EntryIdx| #[trigger]
        w.has(i as int) && !w.detached.contains(i) && w.ent(i).parent != NIL implies w.has(
        w.ent(i).parent as int,
    ) by {
        if i != h {
            assert(v.has(i as int));
            assert(w.slots[i as int] == v.slots[i as int]);
            assert(v.has(v.ent(i).parent as int));
        }
    }
    if v.one_root() {
        assert forall|i: EntryIdx| #[trigger] w.has(i as int) && w.ent(i).parent == NIL implies i
            == w.root || i == w.lost_found by {
            if i != h {
                assert(v.has(i as int));
                assert(w.slots[i as int] == v.slots[i as int]);
            }
        }
    }
    let a = w.scene();
    let b = v.scene().insert(
        v.spot(h),
        Link {
            up: if parent == h {
                Up::Lost
            } else {
                Up::In { spot: v.spot(parent) }
            },
            name,
            lossy,
            dir,
            placeholder: false,
            ..v.scene()[v.spot(h)]
        },
    );
    assert forall|p: Spot| a.dom().contains(p) == b.dom().contains(p) by {
        if let Spot::Loose { slot } = p {
            assert(w.has(slot as int) == v.has(slot as int));
            if v.has(slot as int) {
                assert(w.spot(slot) == v.spot(slot));
            }
        }
    }
    assert forall|p: Spot| a.dom().contains(p) implies a[p] == b[p] by {
        let i = v.slot_at(p);
        assert(w.slot_at(p) == i);
        lemma_slot(v, p);
        if i != h {
            assert(w.slots[i as int] == v.slots[i as int]);
            assert(w.detached.contains(i) == v.detached.contains(i));
            let q = v.ent(i).parent;
            if !v.detached.contains(i) && q != NIL {
                assert(v.has(q as int));
                assert(w.spot(q) == v.spot(q));
            }
        } else {
            assert(w.spot(parent) == v.spot(parent));
            assert(parent != NIL);
            assert(!w.detached.contains(h));
        }
    }
    assert(a =~= b);
}

/// The entry is not one of a record number that is given to the file.
pub open spec fn outlives(v: Volume, i: EntryIdx, f: Frn) -> bool {
    let r = types::record_of(f.0);
    v.has(i as int) && (v.head(f) is Some || !(v.chains.dom().contains(r) && v.chains[r].contains(i)))
}

/// Naming a directory.
proof fn lemma_scene_resolved(v: Volume, f: Frn)
    requires
        v.grounded(),
        v.slots.len() + 1 < NIL,
    ensures
        ({
            let w = v.resolved(f).0;
            let q = v.resolved(f).1;
            &&& w.grounded()
            &&& w.scene() == scene::with_dir(v.scene(), v.lost(), f)
            &&& w.lost_found == v.lost_found
            &&& w.root == v.root
            &&& w.slots.len() <= v.slots.len() + 1
            &&& w.head(f) == Some(q)
            &&& w.has(q as int)
            &&& w.spot(q) == scene::first(f)
            &&& v.one_root() ==> w.one_root()
            &&& forall|i: EntryIdx|
                outlives(v, i, f) ==> w.has(i as int) && #[trigger] w.spot(i) == v.spot(i)
        }),
{
    lemma_held(v, f);
    if v.head(f) is None {
        let r = types::record_of(f.0);
        let a = v.reclaimed(r);
        lemma_scene_reclaimed(v, r);
        let x = model::new_ent(f, a.lost_found, model::placeholder_name(), false, true, true);
        lemma_scene_whole(a);
        assert(a.spot(a.lost_found) == v.lost());
        lemma_scene_filed(a, x);
        let b = a.filed(x);
        let w = v.resolved(f).0;
        lemma_scene_same(b, w);
        lemma_held(w, f);
        assert(w.head(f) == b.head(f));
        assert(w.scene() =~= scene::with_dir(v.scene(), v.lost(), f));
        assert forall|i: EntryIdx| outlives(v, i, f) implies w.has(i as int) && #[trigger] w.spot(i)
            == v.spot(i) by {
            assert(a.spot(i) == v.spot(i));
            assert(b.spot(i) == a.spot(i));
            assert(b.has(i as int));
        }
    }
}

/// Seeing a file.
proof fn lemma_scene_upserted(
    v: Volume,
    f: Frn,
    parent: Frn,
    name: Seq<u8>,
    lossy: bool,
    dir: bool,
    root: EntryIdx,
)
    requires
        v.grounded(),
        v.slots.len() + 2 < NIL,
    ensures
        ({
            let w = v.upserted(f, parent, name, lossy, dir).0;
            &&& w.grounded()
            &&& w.scene() == scene::with_file(
                v.scene(),
                v.lost(),
                f,
                parent,
                name,
                lossy,
                dir,
            )
            &&& w.lost_found == v.lost_found
            &&& w.root == v.root
            &&& w.slots.len() <= v.slots.len() + 2
            &&& v.one_root() ==> w.one_root()
            &&& outlives(v, root, parent) && outlives(v.resolved(parent).0, root, f) ==> w.has(
                root as int,
            ) && w.spot(root) == v.spot(root)
        }),
{
    let a = v.resolved(parent).0;
    let q = v.resolved(parent).1;
    let w = v.upserted(f, parent, name, lossy, dir).0;
    let r = types::record_of(f.0);
    lemma_scene_resolved(v, parent);
    lemma_held(a, f);
    lemma_held(a, parent);
    if let Some(h) = a.head(f) {
        if a.chains[r].len() == 1 {
            lemma_scene_rewritten(a, h, q, name, lossy, dir);
        }
    } else {
        let b = a.claimed(f);
        assert(b == a.reclaimed(r));
        lemma_scene_reclaimed(a, r);
        let x = model::new_ent(f, q, name, lossy, dir, false);
        if types::record_of(parent.0) == r {
            assert(a.chains[r].contains(q));
            assert(!b.has(q as int));
        } else {
            assert(!(a.chains.dom().contains(r) && a.chains[r].contains(q))) by {
                if a.chains.dom().contains(r) && a.chains[r].contains(q) {
                    let k = choose|k: int| 0 <= k < a.chains[r].len() && a.chains[r][k] == q;
                    assert(a.chain_ok(r, a.chains[r]));
                    assert(types::record_of(a.ent(a.chains[r][k]).frn.0) == r);
                    assert(a.ent(q).frn == parent);
                }
            }
            assert(b.spot(q) == a.spot(q));
        }
        lemma_scene_filed(b, x);
        assert(w == b.filed(x));
        assert(w.scene() =~= scene::with_file(v.scene(), v.lost(), f, parent, name, lossy, dir));
        if outlives(v, root, parent) && outlives(a, root, f) {
            assert(a.spot(root) == v.spot(root));
            assert(b.spot(root) == a.spot(root));
            assert(w.spot(root) == b.spot(root));
        }
    }
}

/// The step does not end the file: it does not delete it, and names no other
/// file by its record number.
pub open spec fn spares(op: OpModel, g: Frn) -> bool {
    match op {
        OpModel::Upsert { frn, parent, .. } => {
            &&& types::record_of(frn.0) == types::record_of(g.0) ==> frn == g
            &&& types::record_of(parent.0) == types::record_of(g.0) ==> parent == g
        },
        OpModel::Delete { frn } => frn != g,
        _ => true,
    }
}

impl Volume {
    /// The file that the record number of the root directory leads to: the
    /// root directory itself, as long as nothing else took its number.
    pub open spec fn root_file(self) -> Frn {
        self.ent(self.chains[types::record_of(self.ent(self.root).frn.0)][0]).frn
    }

    /// The root directory is there, and the steps do not end it.
    pub open spec fn keeps_root(self, todo: Seq<OpModel>) -> bool {
        &&& self.has(self.root as int)
        &&& self.chained(self.root) ==> forall|k: int|
            0 <= k < todo.len() ==> spares(#[trigger] todo[k], self.root_file())
    }

    /// The root directory and the lost and found directory alone are in
    /// nothing.
    pub open spec fn one_root(self) -> bool {
        forall|i: EntryIdx| #[trigger]
            self.has(i as int) && self.ent(i).parent == NIL ==> i == self.root || i
                == self.lost_found
    }

    /// Two indexes show the same.
    pub open spec fn looks_like(self, other: Volume) -> bool {
        &&& self.scene() == other.scene()
        &&& self.lost_found == other.lost_found
        &&& self.root == other.root
    }

    /// The root directories are there, and stand at the same spot.
    pub open spec fn rooted_like(self, other: Volume) -> bool {
        &&& self.has(self.root as int)
        &&& other.has(other.root as int)
        &&& self.spot(self.root) == other.spot(other.root)
    }
}

/// A file that a step does not end stays.
proof fn lemma_spared(m: Map<Spot, Link>, lost: Spot, op: OpModel, g: Frn)
    requires
        scene::held(m, g),
        spares(op, g),
    ensures
        scene::held(scene::taken(m, lost, op), g),
{
}

/// The root directory is not among the entries that a record number loses to a
/// file.
proof fn lemma_root_outlives(v: Volume, f: Frn)
    requires
        v.ok(),
        v.has(v.root as int),
        v.chained(v.root) ==> types::record_of(f.0) == types::record_of(v.root_file().0) ==> f
            == v.root_file(),
    ensures
        outlives(v, v.root, f),
        v.chained(v.root) ==> v.head(v.root_file()) is Some,
{
    let r = types::record_of(f.0);
    if v.chained(v.root) {
        let q = types::record_of(v.ent(v.root).frn.0);
        assert(v.chain_ok(q, v.chains[q]));
        assert(types::record_of(v.ent(v.chains[q][0]).frn.0) == q);
    }
    if v.chains.dom().contains(r) && v.chains[r].contains(v.root) {
        assert(v.chain_ok(r, v.chains[r]));
        let k = choose|k: int| 0 <= k < v.chains[r].len() && v.chains[r][k] == v.root;
        assert(types::record_of(v.ent(v.chains[r][k]).frn.0) == r);
        assert(v.chained(v.root));
    }
}

/// A step does in the index what it does in its scene.
proof fn lemma_scene_step(s: Applied, op: OpModel)
    requires
        s.volume.grounded(),
        s.volume.slots.len() + 2 < NIL,
    ensures
        ({
            let v = s.volume;
            let w = model::op_applied(s, op).volume;
            &&& w.grounded()
            &&& w.scene() == scene::taken(v.scene(), v.lost(), op)
            &&& w.lost_found == v.lost_found
            &&& w.root == v.root
            &&& w.slots.len() <= v.slots.len() + 2
            &&& v.one_root() ==> w.one_root()
            &&& v.keeps_root(seq![op]) ==> {
                &&& w.rooted_like(v)
                &&& v.chained(v.root) ==> w.chained(w.root) && w.root_file() == v.root_file()
            }
        }),
{
    let v = s.volume;
    let w = model::op_applied(s, op).volume;
    let g = v.root_file();
    let kept = v.keeps_root(seq![op]);
    assert(seq![op][0] == op);
    assert(kept && v.chained(v.root) ==> spares(op, g));
    match op {
        OpModel::Upsert { frn, parent, name, name_lossy, is_dir } => {
            let a = v.resolved(parent).0;
            lemma_scene_resolved(v, parent);
            if kept {
                lemma_root_outlives(v, parent);
                lemma_root_stays(v, a);
                if v.chained(v.root) {
                    lemma_held(v, g);
                    assert(scene::held(v.scene(), g));
                    assert(scene::held(a.scene(), g));
                    lemma_root_file(v, a, g);
                }
                lemma_root_outlives(a, frn);
            }
            lemma_scene_upserted(v, frn, parent, name, name_lossy, is_dir, v.root);
        },
        OpModel::Delete { frn } => {
            let b = v.deleted(frn).0;
            lemma_held(v, frn);
            if v.head(frn) is Some {
                let r = types::record_of(frn.0);
                lemma_scene_dropped(v, r);
                if kept {
                    lemma_root_outlives(v, v.root_file());
                    assert(!v.chains[r].contains(v.root)) by {
                        if v.chains[r].contains(v.root) {
                            let k = choose|k: int| 0 <= k < v.chains[r].len() && v.chains[r][k]
                                == v.root;
                            assert(v.chain_ok(r, v.chains[r]));
                            assert(types::record_of(v.ent(v.chains[r][k]).frn.0) == r);
                            assert(v.chained(v.root));
                            assert(v.root_file() == frn);
                        }
                    }
                    assert(b.spot(v.root) == v.spot(v.root));
                }
            }
            lemma_scene_same(b, w);
        },
        _ => {
            lemma_scene_same(v, w);
        },
    }
    if kept {
        lemma_root_stays(v, w);
        if v.chained(v.root) {
            lemma_root_outlives(v, g);
            lemma_held(v, g);
            lemma_spared(v.scene(), v.lost(), op, g);
            lemma_root_file(v, w, g);
        }
    }
}

/// An entry that stands where it stood is in a chain if it was.
proof fn lemma_root_stays(v: Volume, w: Volume)
    requires
        v.ok(),
        w.ok(),
        v.has(v.root as int),
        w.root == v.root,
        w.has(w.root as int),
        w.spot(w.root) == v.spot(v.root),
    ensures
        w.chained(w.root) == v.chained(v.root),
        v.chained(v.root) ==> types::record_of(w.ent(w.root).frn.0) == types::record_of(
            v.ent(v.root).frn.0,
        ),
{
}

/// The record number of the root directory leads to the file that it led to.
proof fn lemma_root_file(v: Volume, w: Volume, g: Frn)
    requires
        v.ok(),
        w.ok(),
        v.has(v.root as int),
        w.root == v.root,
        w.has(w.root as int),
        w.spot(w.root) == v.spot(v.root),
        v.chained(v.root),
        g == v.root_file(),
        scene::held(w.scene(), g),
    ensures
        w.root_file() == g,
{
    let r = types::record_of(v.ent(v.root).frn.0);
    assert(v.chain_ok(r, v.chains[r]));
    assert(types::record_of(v.ent(v.chains[r][0]).frn.0) == r);
    lemma_held(w, g);
    lemma_root_stays(v, w);
}

/// Steps do in the index what they do in its scene.
proof fn lemma_scene_steps(s: Applied, todo: Seq<OpModel>)
    requires
        s.volume.grounded(),
        s.volume.slots.len() + 2 * todo.len() < NIL,
    ensures
        ({
            let v = s.volume;
            let w = model::ops_applied(s, todo).volume;
            &&& w.grounded()
            &&& w.scene() == scene::all_taken(v.scene(), v.lost(), todo)
            &&& w.lost_found == v.lost_found
            &&& w.root == v.root
            &&& w.slots.len() <= v.slots.len() + 2 * todo.len()
            &&& v.one_root() ==> w.one_root()
            &&& v.keeps_root(todo) ==> {
                &&& w.rooted_like(v)
                &&& w.chained(w.root) == v.chained(v.root)
                &&& v.chained(v.root) ==> w.root_file() == v.root_file()
            }
        }),
    decreases todo.len(),
{
    if todo.len() > 0 {
        let before = todo.drop_last();
        let op = todo.last();
        let v = s.volume;
        lemma_scene_steps(s, before);
        let a = model::ops_applied(s, before);
        lemma_scene_step(a, op);
        if v.keeps_root(todo) {
            assert(v.keeps_root(before)) by {
                assert forall|k: int| v.chained(v.root) && 0 <= k < before.len() implies spares(
                    #[trigger] before[k],
                    v.root_file(),
                ) by {
                    assert(before[k] == todo[k]);
                }
            }
            assert(a.volume.keeps_root(seq![op])) by {
                assert(v.chained(v.root) ==> spares(todo[todo.len() - 1], v.root_file()));
            }
            lemma_root_stays(a.volume, model::op_applied(a, op).volume);
        }
    }
}

/// A batch does in the index what its steps do in its scene.
proof fn lemma_scene_batch(v: Volume, records: Seq<RecordModel>)
    requires
        v.grounded(),
        v.slots.len() + 2 * laws::told(records).len() < NIL,
    ensures
        ({
            let w = model::batch_applied(v, records).volume;
            &&& w.grounded()
            &&& w.scene() == scene::all_taken(v.scene(), v.lost(), laws::told(records))
            &&& w.lost_found == v.lost_found
            &&& w.root == v.root
            &&& w.slots.len() <= v.slots.len() + 2 * laws::told(records).len()
            &&& v.one_root() ==> w.one_root()
            &&& v.keeps_root(laws::told(records)) ==> w.rooted_like(v) && w.keeps_root(
                laws::told(records),
            )
        }),
{
    let s = model::unapplied(v);
    let todo = laws::told(records);
    laws::lemma_told(s, records);
    lemma_scene_steps(s, todo);
    let a = model::ops_applied(s, todo).volume;
    let w = model::batch_applied(v, records).volume;
    lemma_scene_same(a, w);
    if v.keeps_root(todo) {
        assert(w.spot(w.root) == a.spot(a.root));
        lemma_root_stays(a, w);
    }
}

/// Steps keep the count of placeholders as good as it was.
proof fn lemma_surplus_steps(s: Applied, todo: Seq<OpModel>)
    requires
        s.volume.grounded(),
        s.volume.slots.len() + 2 * todo.len() < NIL,
        s.volume.surplus() >= 0,
    ensures
        model::ops_applied(s, todo).volume.surplus() == s.volume.surplus(),
    decreases todo.len(),
{
    if todo.len() > 0 {
        let before = todo.drop_last();
        lemma_surplus_steps(s, before);
        lemma_scene_steps(s, before);
        let a = model::ops_applied(s, before).volume;
        match todo.last() {
            OpModel::Upsert { frn, parent, name, name_lossy, is_dir } => {
                laws::lemma_upserted_surplus(a, frn, parent, name, name_lossy, is_dir);
            },
            OpModel::Delete { frn } => {
                laws::lemma_reclaimed_surplus(a, types::record_of(frn.0));
            },
            _ => {},
        }
    }
}

/// The placeholders are counted slot by slot.
proof fn lemma_standins_set(slots: Seq<Option<Ent>>)
    ensures
        ({
            let s = Set::new(
                |i: int| 0 <= i < slots.len() && slots[i] is Some && slots[i]->0.placeholder,
            );
            s.finite() && standins::standins(slots) == s.len()
        }),
    decreases slots.len(),
{
    let n = slots.len() as int;
    let s = Set::new(|i: int| 0 <= i < n && slots[i] is Some && slots[i]->0.placeholder);
    if n == 0 {
        assert(s =~= Set::empty());
    } else {
        let d = slots.drop_last();
        lemma_standins_set(d);
        let t = Set::new(|i: int| 0 <= i < d.len() && d[i] is Some && d[i]->0.placeholder);
        if slots[n - 1] is Some && slots[n - 1]->0.placeholder {
            assert(s =~= t.insert(n - 1));
        } else {
            assert(s =~= t);
        }
    }
}

/// A scene shows how many placeholders there are.
proof fn lemma_standins_shown(v: Volume)
    requires
        v.ok(),
    ensures
        standins::standins(v.slots) == Set::new(
            |p: Spot| v.scene().dom().contains(p) && v.scene()[p].placeholder,
        ).len(),
{
    let m = v.scene();
    let s = Set::new(
        |i: int| 0 <= i < v.slots.len() && v.slots[i] is Some && v.slots[i]->0.placeholder,
    );
    let t = Set::new(|p: Spot| m.dom().contains(p) && m[p].placeholder);
    let stand = |i: int| v.spot(i as EntryIdx);
    lemma_standins_set(v.slots);
    assert(s.map(stand) =~= t) by {
        assert forall|p: Spot| s.map(stand).contains(p) <==> t.contains(p) by {
            if s.map(stand).contains(p) {
                let i = choose|i: int| s.contains(i) && stand(i) == p;
                lemma_spot(v, i as EntryIdx);
            }
            if t.contains(p) {
                let i = v.slot_at(p);
                lemma_slot(v, p);
                assert(s.contains(i as int) && stand(i as int) == p);
            }
        }
    }
    assert forall|a: int, b: int|
        s.contains(a) && s.contains(b) && stand(a) == stand(b) implies a == b by {
        lemma_spot(v, a as EntryIdx);
        lemma_spot(v, b as EntryIdx);
    }
    vstd::set_lib::lemma_map_size(s, t, stand);
}

/// Applying a batch of the journal twice equals applying it once: the index
/// then shows the same entries, below the same directories. Files may have any
/// number of links, directories may be known by number only, record numbers
/// may change hands, and directories may end before what is in them. The root
/// directory too is where it was, unless the batch ends it.
pub proof fn law_batch_twice_is_batch_once(v: Volume, records: Seq<RecordModel>)
    requires
        v.grounded(),
        v.slots.len() + 4 * laws::told(records).len() < NIL,
        v.surplus() >= 0,
    ensures
        ({
            let once = model::batch_applied(v, records).volume;
            let twice = model::batch_applied(once, records).volume;
            &&& once.grounded()
            &&& twice.grounded()
            &&& twice.looks_like(once)
            &&& v.keeps_root(laws::told(records)) ==> twice.rooted_like(once)
            &&& v.one_root() ==> once.one_root() && twice.one_root()
            &&& twice.placeholders == once.placeholders
            &&& once.generation == v.generation + 1
            &&& twice.generation == v.generation + 2
        }),
{
    let once = model::batch_applied(v, records).volume;
    let twice = model::batch_applied(once, records).volume;
    lemma_scene_batch(v, records);
    lemma_scene_batch(once, records);
    laws::lemma_told(model::unapplied(v), records);
    laws::lemma_told(model::unapplied(once), records);
    lemma_surplus_steps(model::unapplied(v), laws::told(records));
    lemma_surplus_steps(model::unapplied(once), laws::told(records));
    lemma_standins_shown(once);
    lemma_standins_shown(twice);
    lemma_scene_whole(v);
    scene::law_steps_twice_are_steps_once(v.scene(), v.lost(), laws::told(records));
    laws::law_each_batch_counts_once(v, records);
    laws::law_each_batch_counts_once(once, records);
}

} // verus!
