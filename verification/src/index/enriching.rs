//! What becomes of the files that are read from the volume.

use crate::index::laws;
use crate::index::model;
use crate::index::model::{Ent, Named, Relink, Target, Volume};
use crate::index::replay;
use crate::index::store::{MTIME_UNKNOWN, SIZE_UNKNOWN};
use crate::index::volume::apply;
use crate::layout::parse;
use crate::layout::parse::FileModel;
use crate::types;
use crate::types::{EntryIdx, Frn, NIL};
use crate::usn::record;
use crate::usn::record::RecordModel;
use vstd::prelude::*;

verus! {

/// The file number is that of no other of the files.
pub open spec fn apart(m: Frn, kept: Set<Frn>) -> bool {
    forall|g: Frn| #[trigger]
        kept.contains(g) && types::record_of(g.0) == types::record_of(m.0) ==> g == m
}

/// The entry is in the directory of one of the files.
pub open spec fn placed(v: Volume, i: EntryIdx, kept: Set<Frn>) -> bool {
    !v.detached.contains(i) && exists|g: Frn| #[trigger]
        kept.contains(g) && v.head(g) == Some(v.ent(i).parent)
}

/// The files that were there are there, and file `f` has the links that it had
/// where they were.
spec fn stays(v: Volume, w: Volume, f: Frn, kept: Set<Frn>) -> bool {
    &&& forall|g: Frn| #[trigger]
        kept.contains(g) && v.head(g) is Some ==> w.head(g) == v.head(g)
    &&& w.links(f) == v.links(f)
    &&& forall|i: EntryIdx| #[trigger]
        v.links(f).contains(i) ==> w.has(i as int) && w.ent(i) == v.ent(i) && (placed(v, i, kept)
            ==> placed(w, i, kept))
}

proof fn lemma_stays_on(u: Volume, v: Volume, w: Volume, f: Frn, kept: Set<Frn>)
    requires
        stays(u, v, f, kept),
        stays(v, w, f, kept),
    ensures
        stays(u, w, f, kept),
{
}

/// The links of a file are entries with its record number.
proof fn lemma_links(v: Volume, f: Frn, i: EntryIdx)
    requires
        v.ok(),
        v.links(f).contains(i),
    ensures
        v.head(f) is Some,
        v.has(i as int),
        types::record_of(v.ent(i).frn.0) == types::record_of(f.0),
        i != NIL,
        i != v.lost_found,
{
    let r = types::record_of(f.0);
    let c = v.chains[r];
    assert(v.chain_ok(r, c));
    let k = choose|k: int| 0 <= k < c.len() && c[k] == i;
    assert(v.has(c[k] as int));
}

/// Another volume, in which the entries and directories of the files are the
/// same, and which may hold more.
proof fn lemma_stays_by(v: Volume, w: Volume, f: Frn, kept: Set<Frn>)
    requires
        v.ok(),
        kept.contains(f),
        forall|g: Frn| #[trigger]
            kept.contains(g) && v.head(g) is Some ==> w.head(g) == v.head(g),
        w.links(f) == v.links(f),
        forall|i: EntryIdx| #[trigger]
            v.links(f).contains(i) ==> w.has(i as int) && w.ent(i) == v.ent(i) && (placed(
                v,
                i,
                kept,
            ) ==> !w.detached.contains(i)),
    ensures
        stays(v, w, f, kept),
{
    assert forall|i: EntryIdx| #[trigger] v.links(f).contains(i) && placed(
        v,
        i,
        kept,
    ) implies placed(w, i, kept) by {
        let g = choose|g: Frn| #[trigger] kept.contains(g) && v.head(g) == Some(v.ent(i).parent);
        assert(kept.contains(g) && w.head(g) == Some(w.ent(i).parent));
    }
}

/// Making a record number free does not touch files with other numbers.
proof fn lemma_reclaimed(v: Volume, r: u64, f: Frn, kept: Set<Frn>)
    requires
        v.ok(),
        kept.contains(f),
        forall|g: Frn| #[trigger]
            kept.contains(g) && types::record_of(g.0) == r ==> v.head(g) is None,
    ensures
        v.reclaimed(r).ok(),
        v.reclaimed(r).slots.len() == v.slots.len(),
        v.reclaimed(r).chains == v.chains.remove(r),
        stays(v, v.reclaimed(r), f, kept),
        forall|i: EntryIdx|
            v.has(i as int) && types::record_of(v.ent(i).frn.0) != r ==> #[trigger] v.reclaimed(
                r,
            ).has(i as int),
{
    let w = v.reclaimed(r);
    if v.chains.dom().contains(r) {
        let c = v.chains[r];
        assert(v.chain_ok(r, c));
        laws::lemma_all_ended_ok(v, r);
        assert forall|k: int| 0 <= k < c.len() implies #[trigger] c[k] < v.slots.len() by {
            assert(v.has(c[k] as int));
        }
        laws::lemma_all_ended(v, c);
        replay::lemma_ended_detached(v, c);
        assert forall|i: EntryIdx| c.contains(i) implies v.has(i as int) && types::record_of(
            (#[trigger] v.ent(i)).frn.0,
        ) == r by {
            let k = choose|k: int| 0 <= k < c.len() && c[k] == i;
            assert(v.has(c[k] as int));
        }
        assert forall|i: EntryIdx|
            v.has(i as int) && types::record_of(v.ent(i).frn.0) != r implies #[trigger] w.has(
            i as int,
        ) && w.ent(i) == v.ent(i) && !c.contains(i) by {
            assert(c.contains(i) ==> types::record_of(v.ent(i).frn.0) == r);
            assert(v.all_ended(c).slots[i as int] == w.slots[i as int]);
        }
        assert forall|g: Frn| #[trigger] kept.contains(g) && v.head(g) is Some implies w.head(g)
            == v.head(g) by {
            laws::lemma_head_there(v, g);
            let h = v.head(g)->0;
            assert(w.has(h as int));
        }
        assert(w.links(f) == v.links(f)) by {
            if v.head(f) is None {
                assert(kept.contains(f));
                let q = types::record_of(f.0);
                if w.chains.dom().contains(q) {
                    assert(v.chain_ok(q, v.chains[q]));
                    let h = v.chains[q][0];
                    assert(v.has(h as int));
                    assert(w.has(h as int));
                }
            }
        }
        assert forall|i: EntryIdx| #[trigger] v.links(f).contains(i) implies w.has(i as int)
            && w.ent(i) == v.ent(i) && (placed(v, i, kept) ==> !w.detached.contains(i)) by {
            lemma_links(v, f, i);
            assert(kept.contains(f));
            assert(w.has(i as int));
            if placed(v, i, kept) {
                let g = choose|g: Frn| #[trigger]
                    kept.contains(g) && v.head(g) == Some(v.ent(i).parent);
                laws::lemma_head_there(v, g);
                assert(!c.contains(v.ent(i).parent));
                assert(v.all_ended(c).detached.contains(i) == w.detached.contains(i));
            }
        }
        lemma_stays_by(v, w, f, kept);
    } else {
        assert(v.chains =~= v.chains.remove(r));
        lemma_stays_by(v, v, f, kept);
    }
}

/// A new file of one link does not touch the others.
proof fn lemma_filed(v: Volume, x: Ent, f: Frn, kept: Set<Frn>)
    requires
        v.ok(),
        v.slots.len() + 1 < NIL,
        kept.contains(f),
        !v.chains.dom().contains(types::record_of(x.frn.0)),
        types::record_of(x.frn.0) != types::record_of(f.0),
    ensures
        v.filed(x).ok(),
        v.filed(x).slots.len() <= v.slots.len() + 1,
        v.filed(x).head(x.frn) == Some(v.next_slot()),
        v.filed(x).has(v.next_slot() as int),
        stays(v, v.filed(x), f, kept),
{
    let w = v.filed(x);
    laws::lemma_filed(v, x);
    laws::lemma_new_slot(v);
    assert forall|g: Frn| #[trigger] kept.contains(g) && v.head(g) is Some implies w.head(g)
        == v.head(g) by {
        assert(types::record_of(g.0) != types::record_of(x.frn.0));
        assert(w.head(g) == v.head(g));
    }
    assert(w.head(f) == v.head(f));
    assert forall|i: EntryIdx| #[trigger] v.links(f).contains(i) implies w.has(i as int)
        && w.ent(i) == v.ent(i) && (placed(v, i, kept) ==> !w.detached.contains(i)) by {
        lemma_links(v, f, i);
        assert(w.slots[i as int] == v.slots[i as int]);
        assert(w.detached.contains(i) == v.detached.contains(i));
    }
    lemma_stays_by(v, w, f, kept);
}

/// What is counted does not matter.
proof fn lemma_counted(u: Volume, v: Volume, w: Volume, f: Frn, kept: Set<Frn>)
    requires
        u.ok(),
        kept.contains(f),
        stays(u, v, f, kept),
        v.ok(),
        w.slots == v.slots,
        w.free == v.free,
        w.chains == v.chains,
        w.detached == v.detached,
        w.lost_found == v.lost_found,
    ensures
        w.ok(),
        stays(u, w, f, kept),
        forall|g: Frn| #[trigger] w.head(g) == v.head(g),
{
    laws::lemma_recounted_ok(v, w);
    assert forall|i: EntryIdx| #[trigger] u.links(f).contains(i) implies w.has(i as int)
        && w.ent(i) == u.ent(i) && (placed(u, i, kept) ==> !w.detached.contains(i)) by {
        assert(v.has(i as int));
    }
    lemma_stays_by(u, w, f, kept);
}

/// Naming a directory gives it an entry and touches no file that it does not
/// stand in the way of.
proof fn lemma_resolved(v: Volume, m: Frn, f: Frn, kept: Set<Frn>)
    requires
        v.ok(),
        v.slots.len() + 1 < NIL,
        kept.contains(f),
        apart(m, kept),
        m != f || v.head(f) is Some,
    ensures
        v.resolved(m).0.ok(),
        v.resolved(m).0.slots.len() <= v.slots.len() + 1,
        v.resolved(m).0.head(m) == Some(v.resolved(m).1),
        v.resolved(m).0.has(v.resolved(m).1 as int),
        stays(v, v.resolved(m).0, f, kept),
{
    let (w, q) = v.resolved(m);
    if v.head(m) is Some {
        laws::lemma_head_there(v, m);
        lemma_stays_by(v, v, f, kept);
    } else {
        let r = types::record_of(m.0);
        assert forall|g: Frn| #[trigger]
            kept.contains(g) && types::record_of(g.0) == r implies v.head(g) is None by {
            assert(g == m);
        }
        assert(kept.contains(f));
        lemma_reclaimed(v, r, f, kept);
        let a = v.reclaimed(r);
        let x = model::new_ent(m, a.lost_found, model::placeholder_name(), false, true, true);
        lemma_filed(a, x, f, kept);
        let b = a.filed(x);
        lemma_stays_on(v, a, b, f, kept);
        lemma_counted(v, b, w, f, kept);
        assert(w.has(q as int) == b.has(q as int));
    }
}

/// One more link of another file.
proof fn lemma_linked(v: Volume, h: Frn, p: EntryIdx, name: Seq<u8>, lossy: bool, f: Frn, kept: Set<Frn>)
    requires
        v.ok(),
        v.slots.len() + 1 < NIL,
        kept.contains(f),
        apart(h, kept),
        types::record_of(h.0) != types::record_of(f.0),
    ensures
        v.linked(h, p, name, lossy).ok(),
        v.linked(h, p, name, lossy).slots.len() <= v.slots.len() + 1,
        stays(v, v.linked(h, p, name, lossy), f, kept),
{
    let r = types::record_of(h.0);
    let w = v.linked(h, p, name, lossy);
    let a = v.claimed(h);
    if v.head(h) is None {
        assert forall|g: Frn| #[trigger]
            kept.contains(g) && types::record_of(g.0) == r implies v.head(g) is None by {
            assert(g == h);
        }
        lemma_reclaimed(v, r, f, kept);
    } else {
        lemma_stays_by(v, v, f, kept);
    }
    lemma_pushed(a, h, p, name, lossy);
    lemma_pushed_stays(a, w, h, f, kept, a.next_slot());
    lemma_stays_on(v, a, w, f, kept);
}

/// What one more link of a file does to the entries.
proof fn lemma_pushed(a: Volume, h: Frn, p: EntryIdx, name: Seq<u8>, lossy: bool)
    requires
        a.ok(),
        a.slots.len() + 1 < NIL,
        a.chains.dom().contains(types::record_of(h.0)) ==> a.head(h) is Some,
    ensures
        ({
            let r = types::record_of(h.0);
            let w = a.linked(h, p, name, lossy);
            let n = a.next_slot();
            let c = if a.chains.dom().contains(r) {
                a.chains[r].push(n)
            } else {
                seq![n]
            };
            &&& w.ok()
            &&& w.slots.len() <= a.slots.len() + 1
            &&& w.chains == a.chains.insert(r, c)
            &&& !a.has(n as int)
            &&& w.has(n as int)
            &&& w.ent(n) == model::new_ent(h, p, name, lossy, false, false)
            &&& a.has(p as int) ==> !w.detached.contains(n)
            &&& forall|i: EntryIdx| #[trigger]
                a.has(i as int) ==> w.has(i as int) && w.slots[i as int] == a.slots[i as int]
                    && w.detached.contains(i) == a.detached.contains(i)
        }),
{
    let r = types::record_of(h.0);
    let w = a.linked(h, p, name, lossy);
    let n = a.next_slot();
    let x = model::new_ent(h, p, name, lossy, false, false);
    laws::lemma_created(a, x);
    let b = a.created(x);
    assert(a.claimed(h) == a);
    assert forall|i: EntryIdx| #[trigger] a.has(i as int) implies w.has(i as int)
        && w.slots[i as int] == a.slots[i as int] && w.detached.contains(i) == a.detached.contains(
        i,
    ) by {
        assert(b.has(i as int));
        assert(b.detached.contains(i) == a.detached.contains(i));
    }
    assert(b.has(n as int));
    assert(w.has(n as int));
    let d = w.chains[r];
    if a.chains.dom().contains(r) {
        let c = a.chains[r];
        assert(a.chain_ok(r, c));
        assert forall|k: int| #![trigger d[k]] 0 <= k < d.len() implies b.has(d[k] as int) && d[k]
            != b.lost_found && types::record_of(b.ent(d[k]).frn.0) == r by {
            if k < c.len() {
                assert(d[k] == c[k]);
                assert(a.has(c[k] as int));
            }
        }
        assert forall|i: int, j: int| 0 <= i < d.len() && 0 <= j < d.len() && i != j implies d[i]
            != d[j] by {
            if i < c.len() {
                assert(a.has(c[i] as int));
            }
            if j < c.len() {
                assert(a.has(c[j] as int));
            }
        }
    } else {
        assert(d == seq![n]);
    }
    lemma_rechained(b, w, r, d);
}

/// One more link of another file touches none of the files.
proof fn lemma_pushed_stays(a: Volume, w: Volume, h: Frn, f: Frn, kept: Set<Frn>, n: EntryIdx)
    requires
        a.ok(),
        w.ok(),
        kept.contains(f),
        types::record_of(h.0) != types::record_of(f.0),
        apart(h, kept),
        a.chains.dom().contains(types::record_of(h.0)) ==> a.head(h) is Some,
        w.chains == a.chains.insert(
            types::record_of(h.0),
            if a.chains.dom().contains(types::record_of(h.0)) {
                a.chains[types::record_of(h.0)].push(n)
            } else {
                seq![n]
            },
        ),
        forall|i: EntryIdx| #[trigger]
            a.has(i as int) ==> w.has(i as int) && w.slots[i as int] == a.slots[i as int]
                && w.detached.contains(i) == a.detached.contains(i),
    ensures
        stays(a, w, f, kept),
        a.head(h) is Some ==> w.head(h) == a.head(h),
{
    let r = types::record_of(h.0);
    if a.head(h) is Some {
        laws::lemma_head_there(a, h);
        assert(a.chain_ok(r, a.chains[r]));
        assert(w.chains[r][0] == a.chains[r][0]);
        assert(w.has(a.head(h)->0 as int));
    }
    assert forall|g: Frn| #[trigger] kept.contains(g) && a.head(g) is Some implies w.head(g)
        == a.head(g) by {
        laws::lemma_head_there(a, g);
        assert(w.has(a.head(g)->0 as int));
    }
    assert(w.links(f) == a.links(f)) by {
        let q = types::record_of(f.0);
        if a.chains.dom().contains(q) {
            assert(a.chain_ok(q, a.chains[q]));
            assert(a.has(a.chains[q][0] as int));
        }
    }
    assert forall|i: EntryIdx| #[trigger] a.links(f).contains(i) implies w.has(i as int)
        && w.ent(i) == a.ent(i) && (placed(a, i, kept) ==> !w.detached.contains(i)) by {
        lemma_links(a, f, i);
    }
    lemma_stays_by(a, w, f, kept);
}

/// Another chain for a record number.
proof fn lemma_rechained(b: Volume, w: Volume, r: u64, d: Seq<EntryIdx>)
    requires
        b.ok(),
        w.slots == b.slots,
        w.free == b.free,
        w.lost_found == b.lost_found,
        w.chains == b.chains.insert(r, d),
        b.chain_ok(r, d),
    ensures
        w.ok(),
{
    assert forall|q: u64| #[trigger] w.chains.dom().contains(q) implies w.chain_ok(
        q,
        w.chains[q],
    ) by {
        let g = w.chains[q];
        if q != r {
            assert(b.chain_ok(q, b.chains[q]));
        }
        assert(b.chain_ok(q, g));
        assert forall|k: int| #![trigger g[k]] 0 <= k < g.len() implies w.has(g[k] as int)
            && w.ent(g[k]) == b.ent(g[k]) by {
            assert(b.has(g[k] as int));
        }
    }
    assert forall|k: int| #![trigger w.free[k]] 0 <= k < w.free.len() implies w.free[k]
        < w.slots.len() && w.slots[w.free[k] as int] is None by {
        assert(b.free[k] == w.free[k]);
    }
}

/// The links of a file on the way to those that it should have: nothing that
/// was there changes, and each link is taken from those that were there or is
/// new.
spec fn gathered(
    s: Relink,
    v: Volume,
    current: Seq<EntryIdx>,
    h: Frn,
    dir: bool,
    targets: Seq<Target>,
) -> bool {
    let r = types::record_of(h.0);
    let n = targets.len();
    &&& s.volume.ok()
    &&& s.volume.slots.len() <= v.slots.len() + n
    &&& s.volume.chains == v.chains
    &&& s.volume.lost_found == v.lost_found
    &&& s.kept.len() == n
    &&& s.used.len() == current.len()
    &&& s.kept.no_duplicates()
    &&& forall|i: EntryIdx| #[trigger]
        v.has(i as int) ==> s.volume.has(i as int) && s.volume.slots[i as int]
            == v.slots[i as int] && s.volume.detached.contains(i) == v.detached.contains(i)
    &&& forall|k: int|
        #![trigger s.kept[k]]
        0 <= k < s.kept.len() ==> s.volume.has(s.kept[k] as int) && s.kept[k] != v.lost_found
            && types::record_of(s.volume.ent(s.kept[k]).frn.0) == r
    &&& forall|j: int|
        #![trigger current[j]]
        0 <= j < current.len() && !s.used[j] ==> !s.kept.contains(current[j])
    &&& forall|k: int|
        #![trigger s.kept[k]]
        0 <= k < s.kept.len() ==> current.contains(s.kept[k]) || s.volume.ent(s.kept[k])
            == model::new_ent(
            h,
            targets[k].parent,
            targets[k].name,
            targets[k].lossy,
            dir,
            false,
        )
}

proof fn lemma_gathered(
    s0: Relink,
    current: Seq<EntryIdx>,
    h: Frn,
    dir: bool,
    targets: Seq<Target>,
)
    requires
        s0.volume.ok(),
        s0.volume.slots.len() + targets.len() < NIL,
        s0.kept.len() == 0,
        s0.used.len() == current.len(),
        current.no_duplicates(),
        forall|j: int|
            #![trigger current[j]]
            0 <= j < current.len() ==> s0.volume.has(current[j] as int) && current[j]
                != s0.volume.lost_found && types::record_of(s0.volume.ent(current[j]).frn.0)
                == types::record_of(h.0),
    ensures
        gathered(
            model::relink_all(s0, current, h, dir, targets),
            s0.volume,
            current,
            h,
            dir,
            targets,
        ),
    decreases targets.len(),
{
    let s = model::relink_all(s0, current, h, dir, targets);
    let v = s0.volume;
    if targets.len() > 0 {
        let before = targets.drop_last();
        lemma_gathered(s0, current, h, dir, before);
        let p = model::relink_all(s0, current, h, dir, before);
        let t = targets.last();
        laws::lemma_spare(p.volume, current, p.used, t, 0);
        let pos = model::spare_link(p.volume, current, p.used, t, 0);
        if pos >= 0 {
            assert(v.has(current[pos] as int));
            assert(!p.kept.contains(current[pos]));
            assert forall|k: int| #![trigger s.kept[k]] 0 <= k < s.kept.len() implies current.contains(
                s.kept[k],
            ) || s.volume.ent(s.kept[k]) == model::new_ent(
                h,
                targets[k].parent,
                targets[k].name,
                targets[k].lossy,
                dir,
                false,
            ) by {
                if k < p.kept.len() {
                    assert(s.kept[k] == p.kept[k]);
                    assert(before[k] == targets[k]);
                }
            }
            assert forall|a: int, b: int|
                0 <= a < s.kept.len() && 0 <= b < s.kept.len() && a != b implies s.kept[a]
                != s.kept[b] by {
                if a < p.kept.len() {
                    assert(p.kept[a] == s.kept[a]);
                }
                if b < p.kept.len() {
                    assert(p.kept[b] == s.kept[b]);
                }
            }
            assert forall|k: int| #![trigger s.kept[k]] 0 <= k < s.kept.len() implies s.volume.has(
                s.kept[k] as int,
            ) && s.kept[k] != v.lost_found && types::record_of(s.volume.ent(s.kept[k]).frn.0)
                == types::record_of(h.0) by {
                if k < p.kept.len() {
                    assert(s.kept[k] == p.kept[k]);
                }
            }
            assert forall|j: int|
                #![trigger current[j]]
                0 <= j < current.len() && !s.used[j] implies !s.kept.contains(current[j]) by {
                assert(!p.used[j]);
                assert(current[j] != current[pos]);
                if s.kept.contains(current[j]) {
                    let k = choose|k: int| 0 <= k < s.kept.len() && s.kept[k] == current[j];
                    assert(p.kept[k] == current[j]);
                }
            }
        } else {
            let x = model::new_ent(h, t.parent, t.name, t.lossy, dir, false);
            laws::lemma_created(p.volume, x);
            let n = p.volume.next_slot();
            let b = p.volume.created(x);
            laws::lemma_recounted_ok(b, s.volume);
            assert(b.has(n as int));
            assert forall|k: int| #![trigger s.kept[k]] 0 <= k < s.kept.len() implies current.contains(
                s.kept[k],
            ) || s.volume.ent(s.kept[k]) == model::new_ent(
                h,
                targets[k].parent,
                targets[k].name,
                targets[k].lossy,
                dir,
                false,
            ) by {
                if k < p.kept.len() {
                    assert(s.kept[k] == p.kept[k]);
                    assert(before[k] == targets[k]);
                    assert(p.volume.has(p.kept[k] as int));
                    assert(b.has(p.kept[k] as int));
                }
            }
            assert forall|i: EntryIdx| #[trigger] v.has(i as int) implies s.volume.has(i as int)
                && s.volume.slots[i as int] == v.slots[i as int] && s.volume.detached.contains(i)
                == v.detached.contains(i) by {
                assert(p.volume.has(i as int));
                assert(b.has(i as int));
                assert(b.detached.contains(i) == p.volume.detached.contains(i));
            }
            assert forall|k: int| #![trigger s.kept[k]] 0 <= k < s.kept.len() implies s.volume.has(
                s.kept[k] as int,
            ) && s.kept[k] != v.lost_found && types::record_of(s.volume.ent(s.kept[k]).frn.0)
                == types::record_of(h.0) by {
                if k < p.kept.len() {
                    assert(s.kept[k] == p.kept[k]);
                    assert(p.volume.has(p.kept[k] as int));
                    assert(b.has(p.kept[k] as int));
                }
            }
            assert forall|a: int, c: int|
                0 <= a < s.kept.len() && 0 <= c < s.kept.len() && a != c implies s.kept[a]
                != s.kept[c] by {
                if a < p.kept.len() {
                    assert(p.volume.has(p.kept[a] as int));
                }
                if c < p.kept.len() {
                    assert(p.volume.has(p.kept[c] as int));
                }
            }
            assert forall|j: int|
                #![trigger current[j]]
                0 <= j < current.len() && !s.used[j] implies !s.kept.contains(current[j]) by {
                assert(v.has(current[j] as int));
                assert(p.volume.has(current[j] as int));
                if s.kept.contains(current[j]) {
                    let k = choose|k: int| 0 <= k < s.kept.len() && s.kept[k] == current[j];
                    if k < p.kept.len() {
                        assert(p.kept[k] == current[j]);
                    }
                }
            }
        }
    } else {
        assert forall|j: int|
            #![trigger current[j]]
            0 <= j < current.len() && !s.used[j] implies !s.kept.contains(current[j]) by {}
    }
}

/// Those of the first `k` links that are not used.
spec fn unused(current: Seq<EntryIdx>, used: Seq<bool>, k: int) -> Seq<EntryIdx>
    decreases k,
{
    if k <= 0 {
        Seq::empty()
    } else if used[k - 1] {
        unused(current, used, k - 1)
    } else {
        unused(current, used, k - 1).push(current[k - 1])
    }
}

proof fn lemma_unused(v: Volume, current: Seq<EntryIdx>, used: Seq<bool>, k: int)
    requires
        0 <= k <= current.len(),
        current.no_duplicates(),
    ensures
        ({
            let c = unused(current, used, k);
            let a = model::unused_ended(v, current, used, k);
            let b = v.all_ended(c);
            &&& a.slots == b.slots
            &&& a.free == b.free
            &&& a.detached == b.detached
            &&& a.chains == v.chains
            &&& a.lost_found == v.lost_found
            &&& c.no_duplicates()
            &&& forall|m: int|
                0 <= m < c.len() ==> exists|j: int|
                    0 <= j < k && !used[j] && current[j] == #[trigger] c[m]
        }),
    decreases k,
{
    if k > 0 {
        lemma_unused(v, current, used, k - 1);
        let p = unused(current, used, k - 1);
        let c = unused(current, used, k);
        if !used[k - 1] {
            assert(c.drop_last() =~= p);
            assert forall|m: int| 0 <= m < c.len() implies exists|j: int|
                0 <= j < k && !used[j] && current[j] == #[trigger] c[m] by {
                if m < p.len() {
                    assert(c[m] == p[m]);
                } else {
                    assert(current[k - 1] == c[m]);
                }
            }
            assert(!p.contains(current[k - 1])) by {
                if p.contains(current[k - 1]) {
                    let m = choose|m: int| 0 <= m < p.len() && p[m] == current[k - 1];
                    let j = choose|j: int| 0 <= j < k - 1 && !used[j] && current[j] == p[m];
                    assert(current[j] == current[k - 1]);
                }
            }
            let a = model::unused_ended(v, current, used, k - 1);
            let b = v.all_ended(p);
            assert(a.killed(current[k - 1]).detached =~= b.killed(current[k - 1]).detached);
        }
    }
}

/// Other links for a file do not touch the files with other record numbers.
proof fn lemma_relinked_to(
    u: Volume,
    h: Frn,
    dir: bool,
    targets: Seq<Target>,
    f: Frn,
    kept: Set<Frn>,
)
    requires
        u.ok(),
        u.slots.len() + targets.len() < NIL,
        targets.len() > 0,
        kept.contains(f),
        forall|g: Frn| #[trigger] kept.contains(g) ==> types::record_of(g.0) != types::record_of(h.0),
        u.chains.dom().contains(types::record_of(h.0)) ==> u.head(h) is Some,
    ensures
        u.relinked_to(h, dir, targets).ok(),
        u.relinked_to(h, dir, targets).slots.len() <= u.slots.len() + targets.len(),
        stays(u, u.relinked_to(h, dir, targets), f, kept),
{
    let r = types::record_of(h.0);
    let current = u.links(h);
    if current.len() > 0 {
        assert(u.chain_ok(r, u.chains[r]));
    }
    assert(current.no_duplicates());
    let s0 = Relink { volume: u, kept: Seq::empty(), used: Seq::new(current.len(), |i: int| false) };
    lemma_gathered(s0, current, h, dir, targets);
    let s = model::relink_all(s0, current, h, dir, targets);
    let w = u.relinked_to(h, dir, targets);
    let n = current.len() as int;
    lemma_unused(s.volume, current, s.used, n);
    let c = unused(current, s.used, n);
    assert forall|m: int| 0 <= m < c.len() implies s.volume.has(#[trigger] c[m] as int) && c[m]
        < s.volume.slots.len() && c[m] != u.lost_found && !s.kept.contains(c[m]) && u.has(
        c[m] as int,
    ) && types::record_of(u.ent(c[m]).frn.0) == r by {
        let j = choose|j: int| 0 <= j < n && !s.used[j] && current[j] == c[m];
        assert(u.has(current[j] as int));
    }
    laws::lemma_ended_free(s.volume, c);
    laws::lemma_all_ended(s.volume, c);
    replay::lemma_ended_detached(s.volume, c);
    let b = s.volume.all_ended(c);
    assert(w.slots == b.slots && w.free == b.free && w.detached == b.detached);
    assert forall|i: EntryIdx| u.has(i as int) && types::record_of(u.ent(i).frn.0)
        != r implies #[trigger] w.has(i as int) && w.slots[i as int] == u.slots[i as int]
        && !c.contains(i) by {
        if c.contains(i) {
            let m = choose|m: int| 0 <= m < c.len() && c[m] == i;
            assert(s.volume.has(c[m] as int));
        }
        assert(s.volume.has(i as int));
        assert(b.slots[i as int] == s.volume.slots[i as int]);
    }
    assert(w.has(w.lost_found as int)) by {
        assert(s.volume.has(u.lost_found as int));
        if c.contains(u.lost_found) {
            let m = choose|m: int| 0 <= m < c.len() && c[m] == u.lost_found;
            assert(c[m] != u.lost_found);
        }
        assert(b.slots[u.lost_found as int] == s.volume.slots[u.lost_found as int]);
    }
    assert forall|q: u64| #[trigger] w.chains.dom().contains(q) implies w.chain_ok(
        q,
        w.chains[q],
    ) by {
        let d = w.chains[q];
        if q == r {
            assert(d == s.kept);
            assert forall|k: int| #![trigger d[k]] 0 <= k < d.len() implies w.has(d[k] as int)
                && d[k] != w.lost_found && types::record_of(w.ent(d[k]).frn.0) == r by {
                assert(s.kept[k] == d[k]);
                assert(s.kept.contains(d[k]));
                if c.contains(d[k]) {
                    let m = choose|m: int| 0 <= m < c.len() && c[m] == d[k];
                    assert(!s.kept.contains(c[m]));
                }
                assert(b.slots[d[k] as int] == s.volume.slots[d[k] as int]);
            }
        } else {
            assert(u.chain_ok(q, u.chains[q]));
            assert(d == u.chains[q]);
            assert forall|k: int| #![trigger d[k]] 0 <= k < d.len() implies w.has(d[k] as int)
                && d[k] != w.lost_found && types::record_of(w.ent(d[k]).frn.0) == q by {
                assert(u.has(d[k] as int));
                assert(w.has(d[k] as int));
            }
        }
    }
    assert forall|k: int| #![trigger w.free[k]] 0 <= k < w.free.len() implies w.free[k]
        < w.slots.len() && w.slots[w.free[k] as int] is None by {
        assert(b.free[k] == w.free[k]);
    }
    assert(w.ok());
    assert forall|g: Frn| #[trigger] kept.contains(g) && u.head(g) is Some implies w.head(g)
        == u.head(g) by {
        laws::lemma_head_there(u, g);
        let q = types::record_of(g.0);
        assert(u.chain_ok(q, u.chains[q]));
        assert(w.has(u.head(g)->0 as int));
    }
    assert(w.links(f) == u.links(f)) by {
        let q = types::record_of(f.0);
        assert(kept.contains(f));
        if u.chains.dom().contains(q) {
            assert(u.chain_ok(q, u.chains[q]));
            assert(u.has(u.chains[q][0] as int));
            assert(w.has(u.chains[q][0] as int));
        }
    }
    assert forall|i: EntryIdx| #[trigger] u.links(f).contains(i) implies w.has(i as int)
        && w.ent(i) == u.ent(i) && (placed(u, i, kept) ==> !w.detached.contains(i)) by {
        lemma_links(u, f, i);
        assert(w.has(i as int));
        if placed(u, i, kept) {
            let g = choose|g: Frn| #[trigger]
                kept.contains(g) && u.head(g) == Some(u.ent(i).parent);
            laws::lemma_head_there(u, g);
            let q = types::record_of(g.0);
            assert(u.chain_ok(q, u.chains[q]));
            assert(u.has(u.chains[q][0] as int));
            assert(w.has(u.ent(i).parent as int));
            assert(!c.contains(u.ent(i).parent));
            assert(s.volume.has(i as int));
            assert(b.detached.contains(i) == (s.volume.detached.contains(i) || c.contains(
                s.volume.ent(i).parent,
            )));
        }
    }
    lemma_stays_by(u, w, f, kept);
}

/// Naming directories touches no file that they do not stand in the way of.
proof fn lemma_targeted(v: Volume, names: Seq<Named>, f: Frn, kept: Set<Frn>)
    requires
        v.ok(),
        v.slots.len() + names.len() < NIL,
        kept.contains(f),
        v.head(f) is Some,
        forall|k: int|
            0 <= k < names.len() ==> apart((#[trigger] names[k]).parent_frn, kept),
    ensures
        v.targeted(names).0.ok(),
        v.targeted(names).0.slots.len() <= v.slots.len() + names.len(),
        v.targeted(names).1.len() == names.len(),
        stays(v, v.targeted(names).0, f, kept),
    decreases names.len(),
{
    if names.len() == 0 {
        lemma_stays_by(v, v, f, kept);
    } else {
        let before = names.drop_last();
        assert forall|k: int| 0 <= k < before.len() implies apart(
            (#[trigger] before[k]).parent_frn,
            kept,
        ) by {
            assert(before[k] == names[k]);
        }
        lemma_targeted(v, before, f, kept);
        let a = v.targeted(before).0;
        let n = names[names.len() - 1];
        assert(apart(n.parent_frn, kept));
        lemma_resolved(a, n.parent_frn, f, kept);
        lemma_stays_on(v, a, a.resolved(n.parent_frn).0, f, kept);
    }
}

/// Links of another file touch no file that they do not stand in the way of.
proof fn lemma_joined(v: Volume, h: Frn, names: Seq<Named>, f: Frn, kept: Set<Frn>)
    requires
        v.ok(),
        v.slots.len() + 2 * names.len() < NIL,
        kept.contains(f),
        v.head(f) is Some,
        apart(h, kept),
        types::record_of(h.0) != types::record_of(f.0),
        forall|k: int|
            0 <= k < names.len() ==> apart((#[trigger] names[k]).parent_frn, kept),
    ensures
        v.all_joined(h, names).ok(),
        v.all_joined(h, names).slots.len() <= v.slots.len() + 2 * names.len(),
        stays(v, v.all_joined(h, names), f, kept),
    decreases names.len(),
{
    if names.len() == 0 {
        lemma_stays_by(v, v, f, kept);
    } else {
        let before = names.drop_last();
        assert forall|k: int| 0 <= k < before.len() implies apart(
            (#[trigger] before[k]).parent_frn,
            kept,
        ) by {
            assert(before[k] == names[k]);
        }
        lemma_joined(v, h, before, f, kept);
        let a = v.all_joined(h, before);
        let n = names[names.len() - 1];
        assert(n == names.last());
        assert(apart(n.parent_frn, kept));
        lemma_resolved(a, n.parent_frn, f, kept);
        let (b, p) = a.resolved(n.parent_frn);
        lemma_stays_on(v, a, b, f, kept);
        if !b.has_link(b.links(h), p, n.name) {
            lemma_linked(b, h, p, n.name, n.lossy, f, kept);
            lemma_stays_on(v, b, b.linked(h, p, n.name, n.lossy), f, kept);
        }
    }
}

/// Sizes and times of another file touch nothing of the files.
proof fn lemma_measured(
    v: Volume,
    h: Frn,
    size: Option<u64>,
    mtime: Option<i64>,
    f: Frn,
    kept: Set<Frn>,
)
    requires
        v.ok(),
        kept.contains(f),
        types::record_of(h.0) != types::record_of(f.0),
    ensures
        v.measured(v.links(h), size, mtime).ok(),
        stays(v, v.measured(v.links(h), size, mtime), f, kept),
{
    let c = v.links(h);
    let w = v.measured(c, size, mtime);
    lemma_figures_ok(v, h, size, mtime);
    assert forall|g: Frn| #[trigger] kept.contains(g) && v.head(g) is Some implies w.head(g)
        == v.head(g) by {}
    assert forall|i: EntryIdx| #[trigger] v.links(f).contains(i) implies w.has(i as int)
        && w.ent(i) == v.ent(i) && (placed(v, i, kept) ==> !w.detached.contains(i)) by {
        lemma_links(v, f, i);
        if c.contains(i) {
            lemma_links(v, h, i);
        }
    }
    assert(w.head(f) == v.head(f));
    lemma_stays_by(v, w, f, kept);
}

/// Sizes and times of a file move no entry.
proof fn lemma_figures_ok(v: Volume, h: Frn, size: Option<u64>, mtime: Option<i64>)
    requires
        v.ok(),
    ensures
        ({
            let w = v.measured(v.links(h), size, mtime);
            &&& w.ok()
            &&& w.slots.len() == v.slots.len()
            &&& w.detached == v.detached
            &&& forall|g: Frn| #[trigger] w.head(g) == v.head(g)
            &&& forall|i: int| #[trigger] w.has(i) == v.has(i)
            &&& forall|i: EntryIdx|
                v.has(i as int) ==> (#[trigger] w.ent(i)).parent == v.ent(i).parent && w.ent(i).name
                    == v.ent(i).name && w.ent(i).frn == v.ent(i).frn
        }),
{
    let c = v.links(h);
    let w = v.measured(c, size, mtime);
    assert forall|i: EntryIdx| c.contains(i) implies #[trigger] v.has(i as int) by {
        lemma_links(v, h, i);
    }
    assert forall|i: int| #[trigger] w.has(i) == v.has(i) by {
        if 0 <= i < v.slots.len() && c.contains(i as EntryIdx) {
            assert(v.has((i as EntryIdx) as int));
        }
    }
    assert forall|q: u64| #[trigger] w.chains.dom().contains(q) implies w.chain_ok(
        q,
        w.chains[q],
    ) by {
        let d = w.chains[q];
        assert(v.chain_ok(q, d));
        assert forall|k: int| #![trigger d[k]] 0 <= k < d.len() implies w.has(d[k] as int) && d[k]
            != w.lost_found && types::record_of(w.ent(d[k]).frn.0) == q by {
            assert(v.has(d[k] as int));
        }
    }
    assert forall|k: int| #![trigger w.free[k]] 0 <= k < w.free.len() implies w.free[k]
        < w.slots.len() && w.slots[w.free[k] as int] is None by {
        assert(v.free[k] == w.free[k]);
        let i = v.free[k];
        assert(!v.has(i as int));
        assert(!w.has(i as int));
    }
    assert(w.has(w.lost_found as int));
    assert forall|g: Frn| #[trigger] w.head(g) == v.head(g) by {
        let q = types::record_of(g.0);
        if v.chains.dom().contains(q) {
            assert(v.chain_ok(q, v.chains[q]));
            assert(v.has(v.chains[q][0] as int));
        }
    }
}

/// The file has a name that is no mere alias.
pub open spec fn has_long_name(f: FileModel) -> bool {
    exists|j: int| 0 <= j < f.names.len() && !(#[trigger] f.names[j]).dos_only
}

/// The file, or a directory that it is in.
pub open spec fn mentions(f: FileModel, m: Frn) -> bool {
    m == f.frn || exists|j: int|
        0 <= j < f.names.len() && !(#[trigger] f.names[j]).dos_only && f.names[j].parent_frn == m
}

/// Of the files, up to the `n`th, none after the `k`th stands in its way: none
/// has its record number, and a record number that it mentions is mentioned
/// for the same file only. It is in itself only if it was known.
pub open spec fn undisturbed(files: Seq<FileModel>, k: int, n: int, was_known: bool) -> bool {
    &&& forall|j: int|
        k < j < n ==> types::record_of((#[trigger] files[j]).frn.0) != types::record_of(
            files[k].frn.0,
        )
    &&& forall|j: int, m: Frn, g: Frn|
        #![trigger mentions(files[j], m), mentions(files[k], g)]
        k <= j < n && mentions(files[j], m) && mentions(files[k], g) && types::record_of(m.0)
            == types::record_of(g.0) ==> m == g
    &&& was_known || forall|j: int|
        0 <= j < files[k].names.len() && !(#[trigger] files[k].names[j]).dos_only
            ==> files[k].names[j].parent_frn != files[k].frn
}

/// The file has a link with the name in the directory.
pub open spec fn found(w: Volume, f: Frn, parent: Frn, name: Seq<u8>) -> bool {
    exists|i: EntryIdx| #[trigger]
        w.links(f).contains(i) && w.ent(i).name == name && !w.detached.contains(i) && w.head(parent)
            == Some(w.ent(i).parent)
}

/// What was read of the file is what the index holds of it: it is there, each
/// of its links has the time and, unless it is a directory, the size that were
/// read, and each of its names is one of its links. A directory that was known
/// keeps the name that it had. The links of a file that was not known are those
/// of a directory exactly if it is one.
pub open spec fn read_in(w: Volume, f: FileModel, was_known: bool) -> bool {
    was_known || has_long_name(f) ==> {
        &&& w.head(f.frn) is Some
        &&& forall|i: EntryIdx| #[trigger]
            w.links(f.frn).contains(i) ==> {
                &&& f.mtime_ft is Some ==> w.ent(i).mtime == f.mtime_ft->0
                &&& f.attributes & 0x10 == 0 && f.size is Some ==> w.ent(i).size == f.size->0
                &&& !was_known ==> w.ent(i).frn == f.frn && w.ent(i).dir == (f.attributes & 0x10
                    != 0) && !w.ent(i).placeholder
            }
        &&& f.attributes & 0x10 == 0 || !was_known ==> forall|j: int|
            0 <= j < f.names.len() && !(#[trigger] f.names[j]).dos_only ==> found(
                w,
                f.frn,
                f.names[j].parent_frn,
                f.names[j].name,
            )
    }
}

/// The volume after one file was read.
pub open spec fn after(v: Volume, f: FileModel) -> Volume {
    v.enriched(
        f.frn,
        record::directory(f.attributes),
        apply::long_names(f.names),
        f.size,
        f.mtime_ft,
    )
}

/// Reading another file touches no file that it does not stand in the way of.
proof fn lemma_other(v: Volume, h: FileModel, f: Frn, kept: Set<Frn>)
    requires
        v.ok(),
        v.slots.len() + 4 * apply::long_names(h.names).len() < NIL,
        kept.contains(f),
        v.head(f) is Some,
        apart(h.frn, kept),
        types::record_of(h.frn.0) != types::record_of(f.0),
        forall|k: int|
            0 <= k < apply::long_names(h.names).len() ==> apart(
                (#[trigger] apply::long_names(h.names)[k]).parent_frn,
                kept,
            ),
    ensures
        after(v, h).ok(),
        after(v, h).slots.len() <= v.slots.len() + 4 * apply::long_names(h.names).len(),
        stays(v, after(v, h), f, kept),
{
    let names = apply::long_names(h.names);
    let dir = record::directory(h.attributes);
    let size = if dir {
        None
    } else {
        h.size
    };
    if v.head(h.frn) is None && names.len() == 0 {
        lemma_stays_by(v, v, f, kept);
    } else if v.head(h.frn) is None {
        let less = kept.remove(h.frn);
        assert forall|k: int| 0 <= k < names.len() implies apart(
            (#[trigger] names[k]).parent_frn,
            less,
        ) by {
            assert(apart(names[k].parent_frn, kept));
        }
        lemma_targeted(v, names, f, less);
        let (a, targets) = v.targeted(names);
        let r = types::record_of(h.frn.0);
        let u = a.claimed(h.frn);
        assert forall|g: Frn| #[trigger] less.contains(g) implies types::record_of(g.0) != r by {
            assert(kept.contains(g));
        }
        if a.head(h.frn) is None {
            lemma_reclaimed(a, r, f, less);
        } else {
            lemma_stays_by(a, a, f, less);
        }
        lemma_stays_on(v, a, u, f, less);
        lemma_relinked_to(u, h.frn, dir, targets, f, less);
        let b = u.relinked_to(h.frn, dir, targets);
        assert(b == a.relinked(h.frn, dir, targets));
        lemma_stays_on(v, u, b, f, less);
        assert(apart(h.frn, less));
        let c = if dir {
            b
        } else {
            b.all_joined(h.frn, names)
        };
        if !dir {
            lemma_joined(b, h.frn, names, f, less);
            lemma_stays_on(v, b, c, f, less);
        }
        lemma_measured(c, h.frn, size, h.mtime_ft, f, less);
        let w = c.measured(c.links(h.frn), size, h.mtime_ft);
        lemma_stays_on(v, c, w, f, less);
        assert forall|g: Frn| #[trigger] kept.contains(g) && v.head(g) is Some implies w.head(g)
            == v.head(g) by {
            assert(less.contains(g));
        }
        assert forall|i: EntryIdx| #[trigger] v.links(f).contains(i) && placed(
            v,
            i,
            kept,
        ) implies placed(w, i, kept) by {
            let g = choose|g: Frn| #[trigger]
                kept.contains(g) && v.head(g) == Some(v.ent(i).parent);
            assert(less.contains(g) && v.head(g) == Some(v.ent(i).parent));
            assert(placed(w, i, less));
            let e = choose|e: Frn| #[trigger]
                less.contains(e) && w.head(e) == Some(w.ent(i).parent);
            assert(kept.contains(e) && w.head(e) == Some(w.ent(i).parent));
        }
    } else {
        lemma_stays_by(v, v, f, kept);
        let c = if dir {
            v
        } else {
            v.all_joined(h.frn, names)
        };
        if !dir {
            lemma_joined(v, h.frn, names, f, kept);
        }
        lemma_measured(c, h.frn, size, h.mtime_ft, f, kept);
        lemma_stays_on(v, c, after(v, h), f, kept);
    }
}

/// A link of a file is where it was, in a volume in which nothing of it
/// changed.
proof fn lemma_found_stays(v: Volume, w: Volume, f: Frn, kept: Set<Frn>, parent: Frn, name: Seq<u8>)
    requires
        stays(v, w, f, kept),
        kept.contains(parent),
        found(v, f, parent, name),
    ensures
        found(w, f, parent, name),
{
    let i = choose|i: EntryIdx| #[trigger]
        v.links(f).contains(i) && v.ent(i).name == name && !v.detached.contains(i) && v.head(parent)
            == Some(v.ent(i).parent);
    assert(kept.contains(parent) && v.head(parent) == Some(v.ent(i).parent));
    assert(placed(v, i, kept));
    assert(placed(w, i, kept));
    assert(w.head(parent) == v.head(parent));
    assert(w.links(f).contains(i));
}

/// Each name gives the file a link.
proof fn lemma_joined_own(v: Volume, f: Frn, names: Seq<Named>, kept: Set<Frn>)
    requires
        v.ok(),
        v.slots.len() + 2 * names.len() < NIL,
        kept.contains(f),
        v.head(f) is Some,
        apart(f, kept),
        forall|k: int|
            0 <= k < names.len() ==> kept.contains((#[trigger] names[k]).parent_frn) && apart(
                names[k].parent_frn,
                kept,
            ),
    ensures
        v.all_joined(f, names).ok(),
        v.all_joined(f, names).slots.len() <= v.slots.len() + 2 * names.len(),
        v.all_joined(f, names).head(f) == v.head(f),
        all_of(v, f, false) ==> all_of(v.all_joined(f, names), f, false),
        forall|k: int|
            0 <= k < names.len() ==> found(
                v.all_joined(f, names),
                f,
                (#[trigger] names[k]).parent_frn,
                names[k].name,
            ),
    decreases names.len(),
{
    if names.len() > 0 {
        let before = names.drop_last();
        assert forall|k: int| 0 <= k < before.len() implies kept.contains(
            (#[trigger] before[k]).parent_frn,
        ) && apart(before[k].parent_frn, kept) by {
            assert(before[k] == names[k]);
        }
        lemma_joined_own(v, f, before, kept);
        let a = v.all_joined(f, before);
        let n = names[names.len() - 1];
        assert(n == names.last());
        assert(kept.contains(n.parent_frn) && apart(n.parent_frn, kept));
        lemma_resolved(a, n.parent_frn, f, kept);
        let (b, p) = a.resolved(n.parent_frn);
        assert forall|k: int| 0 <= k < before.len() implies found(
            b,
            f,
            (#[trigger] before[k]).parent_frn,
            before[k].name,
        ) by {
            lemma_found_stays(a, b, f, kept, before[k].parent_frn, before[k].name);
        }
        assert(b.head(f) == a.head(f));
        let c = b.links(f);
        let w = v.all_joined(f, names);
        if all_of(v, f, false) {
            assert forall|e: EntryIdx| #[trigger] b.links(f).contains(e) implies is_of(
                b,
                e,
                f,
                false,
            ) by {
                assert(a.links(f).contains(e));
                assert(is_of(a, e, f, false));
            }
        }
        if b.has_link(c, p, n.name) {
            let j = choose|j: int| 0 <= j < c.len() && b.is_link(#[trigger] c[j], p, n.name);
            assert(b.links(f).contains(c[j]));
            assert forall|k: int| 0 <= k < names.len() implies found(
                w,
                f,
                (#[trigger] names[k]).parent_frn,
                names[k].name,
            ) by {
                if k < before.len() {
                    assert(before[k] == names[k]);
                }
            }
        } else {
            lemma_pushed(b, f, p, n.name, n.lossy);
            let i = b.next_slot();
            let r = types::record_of(f.0);
            let d = c.push(i);
            assert(w.chains[r] == d);
            assert(b.chain_ok(r, c));
            assert(d[0] == c[0]);
            assert(b.has(c[0] as int));
            assert(w.head(f) == b.head(f));
            assert(w.links(f) == d);
            if all_of(v, f, false) {
                assert forall|e: EntryIdx| #[trigger] w.links(f).contains(e) implies is_of(
                    w,
                    e,
                    f,
                    false,
                ) by {
                    let m = choose|m: int| 0 <= m < d.len() && d[m] == e;
                    if m < c.len() {
                        assert(c[m] == e);
                        assert(b.links(f).contains(e));
                        assert(b.has(c[m] as int));
                        assert(is_of(b, e, f, false));
                        assert(w.has(e as int));
                    }
                }
            }
            assert forall|g: Frn| #[trigger] kept.contains(g) && b.head(g) is Some implies w.head(g)
                == b.head(g) by {
                laws::lemma_head_there(b, g);
                assert(w.has(b.head(g)->0 as int));
            }
            assert forall|k: int| 0 <= k < names.len() implies found(
                w,
                f,
                (#[trigger] names[k]).parent_frn,
                names[k].name,
            ) by {
                if k < before.len() {
                    assert(before[k] == names[k]);
                    let q = before[k].parent_frn;
                    let e = choose|e: EntryIdx| #[trigger]
                        b.links(f).contains(e) && b.ent(e).name == names[k].name
                            && !b.detached.contains(e) && b.head(q) == Some(b.ent(e).parent);
                    lemma_links(b, f, e);
                    let m = choose|m: int| 0 <= m < c.len() && c[m] == e;
                    assert(d[m] == e);
                    assert(w.links(f).contains(e));
                    assert(w.has(e as int));
                } else {
                    assert(d[c.len() as int] == i);
                    assert(w.links(f).contains(i));
                }
            }
        }
    }
}

/// The directories that are named are there, and the file is not.
proof fn lemma_targeted_own(v: Volume, f: Frn, names: Seq<Named>, kept: Set<Frn>)
    requires
        v.ok(),
        v.slots.len() + names.len() < NIL,
        kept.contains(f),
        v.head(f) is None,
        forall|k: int|
            0 <= k < names.len() ==> kept.contains((#[trigger] names[k]).parent_frn) && apart(
                names[k].parent_frn,
                kept,
            ) && names[k].parent_frn != f,
    ensures
        v.targeted(names).0.ok(),
        v.targeted(names).0.slots.len() <= v.slots.len() + names.len(),
        v.targeted(names).1.len() == names.len(),
        v.targeted(names).0.head(f) is None,
        forall|k: int|
            0 <= k < names.len() ==> v.targeted(names).0.head((#[trigger] names[k]).parent_frn)
                == Some(v.targeted(names).1[k].parent) && v.targeted(names).1[k].name
                == names[k].name,
    decreases names.len(),
{
    if names.len() > 0 {
        let before = names.drop_last();
        assert forall|k: int| 0 <= k < before.len() implies kept.contains(
            (#[trigger] before[k]).parent_frn,
        ) && apart(before[k].parent_frn, kept) && before[k].parent_frn != f by {
            assert(before[k] == names[k]);
        }
        lemma_targeted_own(v, f, before, kept);
        let (a, targets) = v.targeted(before);
        let n = names[names.len() - 1];
        assert(n == names.last());
        lemma_resolved(a, n.parent_frn, f, kept);
        let w = v.targeted(names).0;
        if w.head(f) is Some {
            let r = types::record_of(f.0);
            assert(w.chain_ok(r, w.chains[r]));
            assert(w.links(f).len() > 0);
        }
        assert forall|k: int| 0 <= k < names.len() implies w.head(
            (#[trigger] names[k]).parent_frn,
        ) == Some(v.targeted(names).1[k].parent) && v.targeted(names).1[k].name
            == names[k].name by {
            if k < before.len() {
                assert(before[k] == names[k]);
                assert(v.targeted(names).1[k] == targets[k]);
                assert(kept.contains(before[k].parent_frn));
            }
        }
    }
}

/// A file that was not known has the names as its links.
proof fn lemma_relinked_own(v: Volume, f: Frn, dir: bool, names: Seq<Named>, kept: Set<Frn>)
    requires
        v.ok(),
        v.slots.len() + 2 * names.len() < NIL,
        names.len() > 0,
        kept.contains(f),
        apart(f, kept),
        v.head(f) is None,
        forall|k: int|
            0 <= k < names.len() ==> kept.contains((#[trigger] names[k]).parent_frn) && apart(
                names[k].parent_frn,
                kept,
            ) && names[k].parent_frn != f,
    ensures
        ({
            let (a, targets) = v.targeted(names);
            let w = a.relinked(f, dir, targets);
            &&& w.ok()
            &&& w.slots.len() <= v.slots.len() + 2 * names.len()
            &&& w.head(f) is Some
            &&& all_of(w, f, dir)
            &&& forall|k: int|
                0 <= k < names.len() ==> found(
                    w,
                    f,
                    (#[trigger] names[k]).parent_frn,
                    names[k].name,
                )
        }),
{
    lemma_targeted_own(v, f, names, kept);
    let (a, targets) = v.targeted(names);
    let r = types::record_of(f.0);
    lemma_reclaimed(a, r, f, kept);
    let u = a.claimed(f);
    let w = a.relinked(f, dir, targets);
    let p = names[0].parent_frn;
    let less = kept.remove(f);
    assert(less.contains(p));
    assert forall|g: Frn| #[trigger] less.contains(g) implies types::record_of(g.0) != r by {
        assert(kept.contains(g));
    }
    lemma_relinked_to(u, f, dir, targets, p, less);
    assert forall|j: int| #![trigger targets[j]] 0 <= j < targets.len() implies targets[j].parent
        == NIL || u.has(targets[j].parent as int) && !a.links(f).contains(targets[j].parent) by {
        assert(a.head(names[j].parent_frn) == Some(targets[j].parent));
        assert(kept.contains(names[j].parent_frn));
        laws::lemma_head_there(u, names[j].parent_frn);
    }
    assert forall|k: int| 0 <= k < names.len() implies found(
        w,
        f,
        (#[trigger] names[k]).parent_frn,
        names[k].name,
    ) by {
        laws::law_reconcile_gives_the_links(a, f, dir, targets, k);
        let i = w.links(f)[k];
        assert(w.links(f).contains(i));
        assert(less.contains(names[k].parent_frn));
        assert(kept.contains(names[k].parent_frn));
    }
    laws::law_reconcile_gives_the_links(a, f, dir, targets, 0);
    assert forall|i: EntryIdx| #[trigger] w.links(f).contains(i) implies is_of(
        w,
        i,
        f,
        dir,
    ) by {
        let k = choose|k: int| 0 <= k < w.links(f).len() && w.links(f)[k] == i;
        law_new_links_are_of_the_file(u, f, dir, targets, k);
        assert(u.claimed(f) == u);
        assert(w == u.relinked(f, dir, targets));
        assert(w.chains[r][k] == i);
        assert(u.links(f).len() == 0);
    }
}

/// The entry is a link of the file, and of a directory or not.
spec fn is_of(w: Volume, i: EntryIdx, f: Frn, dir: bool) -> bool {
    w.ent(i).frn == f && w.ent(i).dir == dir && !w.ent(i).placeholder
}

/// All links of the file are links of it, and of a directory or not.
spec fn all_of(w: Volume, f: Frn, dir: bool) -> bool {
    forall|i: EntryIdx| #[trigger] w.links(f).contains(i) ==> is_of(w, i, f, dir)
}

/// The files whose numbers a file mentions.
spec fn mentioned(f: FileModel) -> Set<Frn> {
    Set::new(|m: Frn| mentions(f, m))
}

/// The long names are those of the names that are no mere aliases.
proof fn lemma_long(names: Seq<parse::NameModel>)
    ensures
        forall|k: int|
            #![trigger apply::long_names(names)[k]]
            0 <= k < apply::long_names(names).len() ==> exists|j: int|
                0 <= j < names.len() && !(#[trigger] names[j]).dos_only && names[j].parent_frn
                    == apply::long_names(names)[k].parent_frn && names[j].name
                    == apply::long_names(names)[k].name,
        forall|j: int|
            0 <= j < names.len() && !(#[trigger] names[j]).dos_only ==> exists|k: int|
                #![trigger apply::long_names(names)[k]]
                0 <= k < apply::long_names(names).len() && names[j].parent_frn
                    == apply::long_names(names)[k].parent_frn && names[j].name
                    == apply::long_names(names)[k].name,
{
    assert forall|k: int|
        #![trigger apply::long_names(names)[k]]
        0 <= k < apply::long_names(names).len() implies exists|j: int|
        0 <= j < names.len() && !(#[trigger] names[j]).dos_only && names[j].parent_frn
            == apply::long_names(names)[k].parent_frn && names[j].name == apply::long_names(
            names,
        )[k].name by {
        lemma_long_from(names, k);
    }
    assert forall|j: int|
        0 <= j < names.len() && !(#[trigger] names[j]).dos_only implies exists|k: int|
        #![trigger apply::long_names(names)[k]]
        0 <= k < apply::long_names(names).len() && names[j].parent_frn == apply::long_names(
            names,
        )[k].parent_frn && names[j].name == apply::long_names(names)[k].name by {
        lemma_long_to(names, j);
    }
}

/// A long name is that of one of the names.
proof fn lemma_long_from(names: Seq<parse::NameModel>, k: int)
    requires
        0 <= k < apply::long_names(names).len(),
    ensures
        exists|j: int|
            0 <= j < names.len() && !(#[trigger] names[j]).dos_only && names[j].parent_frn
                == apply::long_names(names)[k].parent_frn && names[j].name == apply::long_names(
                names,
            )[k].name,
    decreases names.len(),
{
    let before = names.drop_last();
    let a = apply::long_names(before);
    if k < a.len() {
        lemma_long_from(before, k);
        assert(apply::long_names(names)[k] == a[k]);
        let j = choose|j: int|
            0 <= j < before.len() && !(#[trigger] before[j]).dos_only && before[j].parent_frn
                == a[k].parent_frn && before[j].name == a[k].name;
        assert(names[j] == before[j]);
    } else {
        assert(names[names.len() - 1] == names.last());
    }
}

/// A name that is no mere alias gives a long name.
proof fn lemma_long_to(names: Seq<parse::NameModel>, j: int)
    requires
        0 <= j < names.len(),
        !names[j].dos_only,
    ensures
        exists|k: int|
            #![trigger apply::long_names(names)[k]]
            0 <= k < apply::long_names(names).len() && names[j].parent_frn == apply::long_names(
                names,
            )[k].parent_frn && names[j].name == apply::long_names(names)[k].name,
    decreases names.len(),
{
    let before = names.drop_last();
    let a = apply::long_names(before);
    let b = apply::long_names(names);
    if j < before.len() {
        assert(before[j] == names[j]);
        lemma_long_to(before, j);
        let k = choose|k: int|
            #![trigger a[k]]
            0 <= k < a.len() && before[j].parent_frn == a[k].parent_frn && before[j].name
                == a[k].name;
        assert(b[k] == a[k]);
    } else {
        assert(b[b.len() - 1].name == names[j].name);
    }
}

/// What was read of a file is what the index holds of it.
proof fn lemma_own(v: Volume, f: FileModel)
    requires
        v.ok(),
        v.slots.len() + 4 * apply::long_names(f.names).len() < NIL,
        undisturbed(seq![f], 0, 1, v.head(f.frn) is Some),
    ensures
        after(v, f).ok(),
        after(v, f).slots.len() <= v.slots.len() + 4 * apply::long_names(f.names).len(),
        read_in(after(v, f), f, v.head(f.frn) is Some),
{
    let names = apply::long_names(f.names);
    let dir = record::directory(f.attributes);
    let known = v.head(f.frn) is Some;
    let kept = mentioned(f);
    let size = if dir {
        None
    } else {
        f.size
    };
    lemma_long(f.names);
    assert(seq![f][0] == f);
    assert forall|m: Frn| mentions(f, m) implies #[trigger] apart(m, kept) by {
        assert forall|g: Frn| #[trigger]
            kept.contains(g) && types::record_of(g.0) == types::record_of(m.0) implies g == m by {
            assert(mentions(seq![f][0], g) && mentions(seq![f][0], m));
        }
    }
    assert(mentions(f, f.frn));
    assert forall|k: int| 0 <= k < names.len() implies kept.contains(
        (#[trigger] names[k]).parent_frn,
    ) && apart(names[k].parent_frn, kept) && (!known ==> names[k].parent_frn != f.frn) by {
        let j = choose|j: int|
            0 <= j < f.names.len() && !(#[trigger] f.names[j]).dos_only && f.names[j].parent_frn
                == names[k].parent_frn;
        assert(seq![f][0].names[j] == f.names[j]);
        assert(mentions(f, names[k].parent_frn));
    }
    if !known && names.len() == 0 {
        if has_long_name(f) {
            let j = choose|j: int| 0 <= j < f.names.len() && !(#[trigger] f.names[j]).dos_only;
            assert(exists|k: int|
                #![trigger names[k]]
                0 <= k < names.len() && f.names[j].parent_frn == names[k].parent_frn);
        }
    } else {
        let b = if known {
            v
        } else {
            let (a, targets) = v.targeted(names);
            a.relinked(f.frn, dir, targets)
        };
        if !known {
            lemma_relinked_own(v, f.frn, dir, names, kept);
        }
        let c = if dir {
            b
        } else {
            b.all_joined(f.frn, names)
        };
        if !dir {
            lemma_joined_own(b, f.frn, names, kept);
        }
        lemma_figures_ok(c, f.frn, size, f.mtime_ft);
        let w = after(v, f);
        assert(w == c.measured(c.links(f.frn), size, f.mtime_ft));
        assert(w.head(f.frn) == c.head(f.frn));
        assert(w.links(f.frn) == c.links(f.frn));
        assert forall|i: EntryIdx| #[trigger] w.links(f.frn).contains(i) implies (
        f.mtime_ft is Some ==> w.ent(i).mtime == f.mtime_ft->0) && (f.attributes & 0x10 == 0
            && f.size is Some ==> w.ent(i).size == f.size->0) && (!known ==> w.ent(i).frn == f.frn
            && w.ent(i).dir == (f.attributes & 0x10 != 0) && !w.ent(i).placeholder) by {
            lemma_links(c, f.frn, i);
            if !known {
                assert(all_of(c, f.frn, dir));
                assert(is_of(c, i, f.frn, dir));
            }
        }
        if f.attributes & 0x10 == 0 || !known {
            assert forall|j: int|
                0 <= j < f.names.len() && !(#[trigger] f.names[j]).dos_only implies found(
                w,
                f.frn,
                f.names[j].parent_frn,
                f.names[j].name,
            ) by {
                let k = choose|k: int|
                    #![trigger names[k]]
                    0 <= k < names.len() && f.names[j].parent_frn == names[k].parent_frn
                        && f.names[j].name == names[k].name;
                let q = names[k].parent_frn;
                assert(found(c, f.frn, q, names[k].name));
                let i = choose|i: EntryIdx| #[trigger]
                    c.links(f.frn).contains(i) && c.ent(i).name == names[k].name
                        && !c.detached.contains(i) && c.head(q) == Some(c.ent(i).parent);
                lemma_links(c, f.frn, i);
                assert(w.links(f.frn).contains(i));
                assert(w.ent(i).name == c.ent(i).name);
                assert(w.head(q) == c.head(q));
            }
        }
    }
}

/// After one more file was read, each of the files before it that it does not
/// stand in the way of, and it itself, is in the index as it was read.
pub(crate) proof fn lemma_read_on(
    v: Volume,
    files: Seq<FileModel>,
    k: int,
    n: int,
    was_known: bool,
)
    requires
        v.ok(),
        0 <= k <= n < files.len(),
        v.slots.len() + 4 * apply::long_names(files[n].names).len() < NIL,
        undisturbed(files, k, n + 1, was_known),
        k < n ==> read_in(v, files[k], was_known),
        k == n ==> was_known == (v.head(files[n].frn) is Some),
    ensures
        read_in(after(v, files[n]), files[k], was_known),
{
    let f = files[k];
    let h = files[n];
    if k == n {
        assert forall|j: int, m: Frn, g: Frn|
            #![trigger mentions(seq![f][j], m), mentions(seq![f][0], g)]
            0 <= j < 1 && mentions(seq![f][j], m) && mentions(seq![f][0], g) && types::record_of(
                m.0,
            ) == types::record_of(g.0) implies m == g by {
            assert(mentions(files[k], m) && mentions(files[k], g));
        }
        lemma_own(v, f);
    } else if was_known || has_long_name(f) {
        let kept = mentioned(f);
        let names = apply::long_names(h.names);
        lemma_long(h.names);
        assert(mentions(f, f.frn));
        assert forall|m: Frn| mentions(h, m) implies #[trigger] apart(m, kept) by {
            assert forall|g: Frn| #[trigger]
                kept.contains(g) && types::record_of(g.0) == types::record_of(
                    m.0,
                ) implies g == m by {
                assert(mentions(files[n], m) && mentions(files[k], g));
            }
        }
        assert(mentions(h, h.frn));
        assert forall|j: int| 0 <= j < names.len() implies apart(
            (#[trigger] names[j]).parent_frn,
            kept,
        ) by {
            let e = choose|e: int|
                0 <= e < h.names.len() && !(#[trigger] h.names[e]).dos_only && h.names[e].parent_frn
                    == names[j].parent_frn;
            assert(mentions(h, names[j].parent_frn));
        }
        lemma_other(v, h, f.frn, kept);
        let w = after(v, h);
        assert(w.head(f.frn) == v.head(f.frn));
        assert forall|i: EntryIdx| #[trigger] w.links(f.frn).contains(i) implies (
        f.mtime_ft is Some ==> w.ent(i).mtime == f.mtime_ft->0) && (f.attributes & 0x10 == 0
            && f.size is Some ==> w.ent(i).size == f.size->0) && (!was_known ==> w.ent(i).frn
            == f.frn && w.ent(i).dir == (f.attributes & 0x10 != 0) && !w.ent(i).placeholder) by {
            assert(v.links(f.frn).contains(i));
        }
        if f.attributes & 0x10 == 0 || !was_known {
            assert forall|j: int|
                0 <= j < f.names.len() && !(#[trigger] f.names[j]).dos_only implies found(
                w,
                f.frn,
                f.names[j].parent_frn,
                f.names[j].name,
            ) by {
                assert(mentions(f, f.names[j].parent_frn));
                lemma_found_stays(v, w, f.frn, kept, f.names[j].parent_frn, f.names[j].name);
            }
        }
    }
}

/// None of the records after the `k`th, up to the `n`th, stands in its way.
pub open spec fn unclaimed(records: Seq<RecordModel>, k: int, n: int) -> bool {
    &&& apart_of(records[k], records[k])
    &&& forall|j: int|
        k < j < n ==> (#[trigger] records[j]).frn != records[k].frn && apart_of(
            records[j],
            records[k],
        )
}

/// The record numbers that both mention stand for the same files.
pub open spec fn apart_of(a: RecordModel, b: RecordModel) -> bool {
    apart(a.frn, set![b.frn, b.parent_frn]) && apart(a.parent_frn, set![b.frn, b.parent_frn])
}

/// The file that was listed is in the index, under its name in its directory.
pub open spec fn listed_in(w: Volume, r: RecordModel) -> bool {
    &&& w.links(r.frn).len() == 1
    &&& w.has(w.links(r.frn)[0] as int)
    &&& !w.detached.contains(w.links(r.frn)[0])
    &&& w.ent(w.links(r.frn)[0]).frn == r.frn
    &&& w.ent(w.links(r.frn)[0]).name == r.name
    &&& w.ent(w.links(r.frn)[0]).lossy == r.name_lossy
    &&& w.ent(w.links(r.frn)[0]).dir == (r.attributes & 0x10 != 0)
    &&& !w.ent(w.links(r.frn)[0]).placeholder
    &&& w.head(r.parent_frn) == Some(w.ent(w.links(r.frn)[0]).parent)
}

/// The volume after one record was listed.
pub open spec fn listed(v: Volume, r: RecordModel) -> Volume {
    v.upserted(
        r.frn,
        r.parent_frn,
        r.name,
        r.name_lossy,
        record::directory(r.attributes),
    ).0
}

proof fn lemma_listed_own(v: Volume, r: RecordModel)
    requires
        v.ok(),
        v.slots.len() + 2 < NIL,
        v.links(r.frn).len() <= 1,
        apart_of(r, r),
    ensures
        listed_in(listed(v, r), r),
{
    let kept = set![r.frn, r.parent_frn];
    let f = r.frn;
    let q = types::record_of(f.0);
    let (a, p) = v.resolved(r.parent_frn);
    if f == r.parent_frn && v.head(f) is None {
        let some = Frn(
            if q == 0 {
                1u64
            } else {
                0u64
            },
        );
        assert(types::record_of(some.0) != q);
        lemma_reclaimed(v, q, some, set![some]);
        let b = v.reclaimed(q);
        let x = model::new_ent(f, b.lost_found, model::placeholder_name(), false, true, true);
        laws::lemma_filed(b, x);
        laws::lemma_recounted_ok(b.filed(x), a);
        assert(a.chains[q] == seq![p]);
        assert(b.filed(x).has(p as int));
        assert(a.has(p as int));
        assert(a.head(f) == Some(p));
    } else {
        lemma_resolved(v, r.parent_frn, f, kept);
    }
    let w = listed(v, r);
    let dir = record::directory(r.attributes);
    if a.head(f) is Some {
        laws::lemma_head_there(a, f);
        let h = a.head(f)->0;
        laws::lemma_rewritten(a, h, p, r.name, r.name_lossy, dir);
        assert(a.chain_ok(q, a.chains[q]));
        assert(w.head(f) == a.head(f));
        assert(w.head(r.parent_frn) == a.head(r.parent_frn));
        assert(w.has(h as int));
        assert(w.links(f)[0] == h);
    } else {
        lemma_reclaimed(a, q, f, kept);
        let b = a.claimed(f);
        laws::lemma_filed(b, model::new_ent(f, p, r.name, r.name_lossy, dir, false));
        assert(kept.contains(r.parent_frn));
        laws::lemma_head_there(b, r.parent_frn);
        assert(w.links(f) == seq![b.next_slot()]);
        assert(w.head(r.parent_frn) == b.head(r.parent_frn));
    }
}

proof fn lemma_listed_other(v: Volume, h: RecordModel, r: RecordModel)
    requires
        v.ok(),
        v.slots.len() + 2 < NIL,
        listed_in(v, r),
        h.frn != r.frn,
        apart_of(h, r),
    ensures
        listed_in(listed(v, h), r),
{
    let kept = set![r.frn, r.parent_frn];
    let f = r.frn;
    let q = types::record_of(h.frn.0);
    let dir = record::directory(h.attributes);
    lemma_resolved(v, h.parent_frn, f, kept);
    let (a, p) = v.resolved(h.parent_frn);
    let w = listed(v, h);
    assert(kept.contains(f) && kept.contains(r.parent_frn));
    assert(types::record_of(f.0) != q);
    if a.head(h.frn) is Some {
        laws::lemma_head_there(a, h.frn);
        let e = a.head(h.frn)->0;
        assert(a.chain_ok(q, a.chains[q]));
        if a.chains[q].len() == 1 {
            laws::lemma_rewritten(a, e, p, h.name, h.name_lossy, dir);
            assert forall|i: EntryIdx| #[trigger] a.links(f).contains(i) implies w.has(i as int)
                && w.ent(i) == a.ent(i) && (placed(a, i, kept) ==> !w.detached.contains(i)) by {
                lemma_links(a, f, i);
                assert(i != e);
                assert(w.has(i as int));
            }
            assert(w.head(f) == a.head(f));
            lemma_stays_by(a, w, f, kept);
        } else {
            lemma_stays_by(a, a, f, kept);
        }
    } else {
        lemma_reclaimed(a, q, f, kept);
        let b = a.claimed(h.frn);
        let x = model::new_ent(h.frn, p, h.name, h.name_lossy, dir, false);
        lemma_filed(b, x, f, kept);
        lemma_stays_on(a, b, w, f, kept);
    }
    lemma_stays_on(v, a, w, f, kept);
    let i = v.links(f)[0];
    assert(v.links(f).contains(i));
    assert(kept.contains(r.parent_frn) && v.head(r.parent_frn) == Some(v.ent(i).parent));
    assert(placed(v, i, kept));
    assert(placed(w, i, kept));
}

/// After one more record was listed, each of the files before it that it does
/// not stand in the way of, and its own, is in the index as it was listed.
pub(crate) proof fn lemma_listed_on(v: Volume, records: Seq<RecordModel>, k: int, n: int)
    requires
        v.ok(),
        v.slots.len() + 2 < NIL,
        0 <= k <= n < records.len(),
        unclaimed(records, k, n + 1),
        k < n ==> listed_in(v, records[k]),
        k == n ==> v.links(records[n].frn).len() <= 1,
    ensures
        listed_in(listed(v, records[n]), records[k]),
{
    if k == n {
        lemma_listed_own(v, records[n]);
    } else {
        lemma_listed_other(v, records[n], records[k]);
    }
}

/// After the links of a file were read, those that it had and has no longer are
/// gone, and those that it still has are as they were.
pub proof fn law_links_that_went_are_gone(
    v: Volume,
    f: Frn,
    dir: bool,
    targets: Seq<Target>,
    i: EntryIdx,
)
    requires
        v.ok(),
        v.head(f) is Some,
        0 < targets.len(),
        v.slots.len() + targets.len() < NIL,
        v.links(f).contains(i),
    ensures
        ({
            let w = v.relinked(f, dir, targets);
            let now = w.chains[types::record_of(f.0)];
            &&& w.chains.dom().contains(types::record_of(f.0))
            &&& now.len() == targets.len()
            &&& now.contains(i) ==> w.has(i as int) && w.ent(i) == v.ent(i)
            &&& !now.contains(i) ==> !w.has(i as int)
        }),
{
    let r = types::record_of(f.0);
    let current = v.links(f);
    assert(v.chain_ok(r, v.chains[r]));
    let s0 = Relink { volume: v, kept: Seq::empty(), used: Seq::new(current.len(), |i: int| false) };
    lemma_gathered(s0, current, f, dir, targets);
    let s = model::relink_all(s0, current, f, dir, targets);
    let n = current.len() as int;
    lemma_unused(s.volume, current, s.used, n);
    let c = unused(current, s.used, n);
    assert forall|m: int| 0 <= m < c.len() implies #[trigger] c[m] < s.volume.slots.len() by {
        let j = choose|j: int| 0 <= j < n && !s.used[j] && current[j] == c[m];
        assert(v.has(current[j] as int));
        assert(s.volume.has(current[j] as int));
    }
    laws::lemma_all_ended(s.volume, c);
    let w = v.relinked(f, dir, targets);
    let b = s.volume.all_ended(c);
    assert(w.slots == b.slots);
    let k = choose|k: int| 0 <= k < n && current[k] == i;
    assert(v.has(current[k] as int));
    assert(s.volume.has(i as int));
    assert(b.slots[i as int] == (if c.contains(i) {
        None
    } else {
        s.volume.slots[i as int]
    }));
    lemma_used_are_kept(s0, current, f, dir, targets);
    if s.kept.contains(i) {
        if c.contains(i) {
            let m = choose|m: int| 0 <= m < c.len() && c[m] == i;
            let j = choose|j: int| 0 <= j < n && !s.used[j] && current[j] == c[m];
            assert(!s.kept.contains(current[j]));
        }
    } else {
        assert(!s.used[k]);
        lemma_unused_listed(current, s.used, n, k);
    }
}

/// After the links of a file were read, each of them is one that it had, or is
/// new: then it is one of the file, in the directory and with the name that were
/// read, a directory if the file is one, and its size and time are not known yet.
pub proof fn law_new_links_are_of_the_file(
    v: Volume,
    f: Frn,
    dir: bool,
    targets: Seq<Target>,
    k: int,
)
    requires
        v.ok(),
        v.chains.dom().contains(types::record_of(f.0)) ==> v.head(f) is Some,
        v.slots.len() + targets.len() < NIL,
        0 <= k < targets.len(),
    ensures
        ({
            let w = v.relinked(f, dir, targets);
            let i = w.chains[types::record_of(f.0)][k];
            &&& w.chains[types::record_of(f.0)].len() == targets.len()
            &&& w.has(i as int)
            &&& v.links(f).contains(i) && w.ent(i) == v.ent(i) || w.ent(i).frn == f && w.ent(
                i,
            ).parent == targets[k].parent && w.ent(i).name == targets[k].name && w.ent(i).lossy
                == targets[k].lossy && w.ent(i).dir == dir && !w.ent(i).placeholder && w.ent(i).size
                == SIZE_UNKNOWN && w.ent(i).mtime == MTIME_UNKNOWN
        }),
{
    let r = types::record_of(f.0);
    let current = v.links(f);
    if current.len() > 0 {
        assert(v.chain_ok(r, v.chains[r]));
    }
    assert(v.claimed(f) == v);
    let s0 = Relink { volume: v, kept: Seq::empty(), used: Seq::new(current.len(), |i: int| false) };
    lemma_gathered(s0, current, f, dir, targets);
    let s = model::relink_all(s0, current, f, dir, targets);
    let n = current.len() as int;
    lemma_unused(s.volume, current, s.used, n);
    let c = unused(current, s.used, n);
    assert forall|m: int| 0 <= m < c.len() implies #[trigger] c[m] < s.volume.slots.len()
        && !s.kept.contains(c[m]) by {
        let j = choose|j: int| 0 <= j < n && !s.used[j] && current[j] == c[m];
        assert(v.has(current[j] as int));
        assert(s.volume.has(current[j] as int));
    }
    laws::lemma_all_ended(s.volume, c);
    let w = v.relinked(f, dir, targets);
    let b = s.volume.all_ended(c);
    assert(w.slots == b.slots);
    let i = s.kept[k];
    assert(s.kept.contains(i));
    assert(s.volume.has(i as int));
    if c.contains(i) {
        let m = choose|m: int| 0 <= m < c.len() && c[m] == i;
        assert(!s.kept.contains(c[m]));
    }
    assert(b.slots[i as int] == s.volume.slots[i as int]);
    if current.contains(i) {
        let j = choose|j: int| 0 <= j < n && current[j] == i;
        assert(v.has(current[j] as int));
    }
}

/// A link that is taken is kept.
proof fn lemma_used_are_kept(
    s0: Relink,
    current: Seq<EntryIdx>,
    h: Frn,
    dir: bool,
    targets: Seq<Target>,
)
    requires
        s0.used.len() == current.len(),
        forall|j: int| 0 <= j < s0.used.len() ==> !#[trigger] s0.used[j],
    ensures
        ({
            let s = model::relink_all(s0, current, h, dir, targets);
            &&& s.used.len() == current.len()
            &&& forall|j: int|
                0 <= j < current.len() && #[trigger] s.used[j] ==> s.kept.contains(current[j])
        }),
    decreases targets.len(),
{
    if targets.len() > 0 {
        lemma_used_are_kept(s0, current, h, dir, targets.drop_last());
        let p = model::relink_all(s0, current, h, dir, targets.drop_last());
        let s = model::relink_all(s0, current, h, dir, targets);
        let t = targets.last();
        laws::lemma_spare(p.volume, current, p.used, t, 0);
        let pos = model::spare_link(p.volume, current, p.used, t, 0);
        assert forall|j: int| 0 <= j < current.len() && #[trigger] s.used[j] implies s.kept.contains(
            current[j],
        ) by {
            if pos >= 0 && j == pos {
                assert(s.kept[p.kept.len() as int] == current[j]);
            } else {
                assert(p.used[j]);
                let k = choose|k: int| 0 <= k < p.kept.len() && p.kept[k] == current[j];
                assert(s.kept[k] == current[j]);
            }
        }
    }
}

proof fn lemma_unused_listed(current: Seq<EntryIdx>, used: Seq<bool>, k: int, j: int)
    requires
        0 <= j < k <= current.len(),
        !used[j],
    ensures
        unused(current, used, k).contains(current[j]),
    decreases k,
{
    let c = unused(current, used, k);
    if j == k - 1 {
        assert(c[c.len() - 1] == current[j]);
    } else {
        lemma_unused_listed(current, used, k - 1, j);
        let p = unused(current, used, k - 1);
        let m = choose|m: int| 0 <= m < p.len() && p[m] == current[j];
        assert(c[m] == current[j]);
    }
}

/// What is in a directory that is deleted loses its place, but stays. Nothing
/// else does.
pub proof fn law_what_was_in_the_deleted_is_detached(v: Volume, f: Frn, i: EntryIdx)
    requires
        v.ok(),
        v.head(f) is Some,
        v.has(i as int),
        !v.links(f).contains(i),
    ensures
        ({
            let w = v.deleted(f).0;
            &&& w.has(i as int)
            &&& w.ent(i) == v.ent(i)
            &&& w.detached.contains(i) <==> v.detached.contains(i) || v.links(f).contains(
                v.ent(i).parent,
            )
        }),
{
    let r = types::record_of(f.0);
    let c = v.chains[r];
    assert(v.chain_ok(r, c));
    assert forall|k: int| 0 <= k < c.len() implies #[trigger] c[k] < v.slots.len() by {
        assert(v.has(c[k] as int));
    }
    laws::lemma_all_ended(v, c);
    replay::lemma_ended_detached(v, c);
    assert(v.all_ended(c).slots[i as int] == v.slots[i as int]);
    assert(v.all_ended(c).detached.contains(i) == (v.detached.contains(i) || c.contains(
        v.ent(i).parent,
    )));
}

/// A directory that is named before it was seen is counted as a placeholder; one
/// that is known is not. Entries under the record number of another file are
/// counted as stale.
pub proof fn law_what_was_not_seen_is_counted(v: Volume, m: Frn)
    requires
        v.ok(),
    ensures
        ({
            let w = v.resolved(m).0;
            let known = v.head(m) is Some;
            let stale = !known && v.chains.dom().contains(types::record_of(m.0));
            &&& w.stats.placeholders_created == v.stats.placeholders_created + (if known {
                0int
            } else {
                1
            })
            &&& w.stats.stale_slots == v.stats.stale_slots + (if stale {
                1int
            } else {
                0
            })
            &&& w.stats.delete_of_unknown == v.stats.delete_of_unknown
            &&& w.stats.rename_old_seen == v.stats.rename_old_seen
            &&& w.stats.link_reconciles_dropped == v.stats.link_reconciles_dropped
            &&& known ==> w == v
        }),
{
    let r = types::record_of(m.0);
    if v.chains.dom().contains(r) {
        let c = v.chains[r];
        assert(v.chain_ok(r, c));
        assert forall|k: int| 0 <= k < c.len() implies v.has(#[trigger] c[k] as int) by {}
        laws::lemma_ended_free(v, c);
    }
}

} // verus!
