//! What holds of an index whatever happens to the volume.

use crate::index::model;
use crate::index::model::{Applied, Ent, Target, Volume};
use crate::index::standins;
use crate::types;
use crate::types::{EntryIdx, Frn, NIL};
use crate::usn::ops;
use crate::usn::ops::OpModel;
use crate::usn::record::RecordModel;
use vstd::prelude::*;

verus! {

impl Volume {
    /// The empty slots are the free ones, and chains hold entries of their
    /// files.
    pub open spec fn ok(self) -> bool {
        &&& self.slots.len() < NIL
        &&& self.free.no_duplicates()
        &&& forall|k: int|
            #![trigger self.free[k]]
            0 <= k < self.free.len() ==> self.free[k] < self.slots.len()
                && self.slots[self.free[k] as int] is None
        &&& self.has(self.lost_found as int)
        &&& forall|r: u64| #[trigger]
            self.chains.dom().contains(r) ==> self.chain_ok(r, self.chains[r])
    }

    pub open spec fn chain_ok(self, r: u64, c: Seq<EntryIdx>) -> bool {
        &&& c.len() > 0
        &&& c.no_duplicates()
        &&& forall|k: int|
            #![trigger c[k]]
            0 <= k < c.len() ==> self.has(c[k] as int) && c[k] != self.lost_found
                && types::record_of(self.ent(c[k]).frn.0) == r
    }
}

/// A file of a reference file system.
pub ghost struct File {
    pub parent: Frn,
    pub name: Seq<u8>,
    pub lossy: bool,
    pub dir: bool,
}

/// The file is the root or one of the files.
pub open spec fn known(files: Map<Frn, File>, root: Frn, f: Frn) -> bool {
    f == root || files.dom().contains(f)
}

/// A reference file system: every record number stands for one file, and
/// every parent is there.
pub open spec fn files_ok(files: Map<Frn, File>, root: Frn) -> bool {
    &&& !files.dom().contains(root)
    &&& forall|f: Frn, g: Frn|
        #![trigger known(files, root, f), known(files, root, g)]
        known(files, root, f) && known(files, root, g) && types::record_of(f.0)
            == types::record_of(g.0) ==> f == g
    &&& forall|f: Frn| #[trigger]
        files.dom().contains(f) ==> known(files, root, files[f].parent)
}

/// The file is in the index as it is in the file system.
pub open spec fn shown(v: Volume, files: Map<Frn, File>, f: Frn) -> bool {
    &&& files.dom().contains(f)
    &&& v.head(f) is Some
    &&& v.head(files[f].parent) is Some
    &&& ({
        let x = v.ent(v.head(f)->0);
        &&& x.parent == v.head(files[f].parent)->0
        &&& x.name == files[f].name
        &&& x.lossy == files[f].lossy
        &&& x.dir == files[f].dir
        &&& !x.placeholder
        &&& !v.detached.contains(v.head(f)->0)
    })
}

/// The entries found by a record number are one entry of a file that may be
/// there.
pub open spec fn lone(v: Volume, held: Set<Frn>, r: u64) -> bool {
    v.chains[r].len() == 1 && held.contains(v.ent(v.chains[r][0]).frn)
}

/// The entry is found by the record number of its file.
pub open spec fn findable(v: Volume, i: int) -> bool {
    let r = types::record_of(v.slots[i]->0.frn.0);
    v.chains.dom().contains(r) && v.chains[r][0] == i
}

/// The two topmost directories are no placeholders.
pub open spec fn tidy_top(v: Volume) -> bool {
    !v.ent(v.root).placeholder && !v.ent(v.lost_found).placeholder
}

/// The index shows the files that were seen, as they are in the file system.
/// Other entries stand for files that were not seen; each entry is that of a
/// file that may be there.
pub open spec fn tracks(
    v: Volume,
    files: Map<Frn, File>,
    root: Frn,
    seen: Set<Frn>,
    held: Set<Frn>,
) -> bool {
    &&& v.head(root) == Some(v.root)
    &&& v.ent(v.root).parent == NIL
    &&& !v.detached.contains(v.root)
    &&& tidy_top(v)
    &&& forall|f: Frn| #[trigger] seen.contains(f) ==> shown(v, files, f)
    &&& forall|r: u64| #[trigger] v.chains.dom().contains(r) ==> lone(v, held, r)
    &&& forall|i: int| #[trigger] v.has(i) ==> i == v.lost_found || findable(v, i)
}

/// The root and the files.
pub open spec fn all_known(files: Map<Frn, File>, root: Frn) -> Set<Frn> {
    Set::new(|f: Frn| known(files, root, f))
}

/// The index shows the files that were seen, as they are in the file system.
/// Other entries stand for files that were not seen.
pub open spec fn mirrors(v: Volume, files: Map<Frn, File>, root: Frn, seen: Set<Frn>) -> bool {
    tracks(v, files, root, seen, all_known(files, root))
}

pub(super) proof fn lemma_new_slot(v: Volume)
    requires
        v.ok(),
    ensures
        !v.has(v.next_slot() as int),
        v.next_slot() <= v.slots.len(),
        v.free.len() > 0 ==> v.next_slot() < v.slots.len(),
{
    if v.free.len() > 0 {
        assert(v.free[v.free.len() - 1] < v.slots.len());
    }
}

/// What making a file of one link does to the entries.
pub(super) proof fn lemma_filed(v: Volume, x: Ent)
    requires
        v.ok(),
        v.slots.len() + 1 < NIL,
        !v.chains.dom().contains(types::record_of(x.frn.0)),
    ensures
        v.filed(x).ok(),
        v.filed(x).has(v.next_slot() as int),
        v.filed(x).ent(v.next_slot()) == x,
        v.filed(x).head(x.frn) == Some(v.next_slot()),
        forall|i: int| #[trigger]
            v.filed(x).has(i) <==> v.has(i) || i == v.next_slot(),
        forall|i: int| #[trigger] v.has(i) ==> v.filed(x).slots[i] == v.slots[i],
        forall|f: Frn|
            types::record_of(f.0) != types::record_of(x.frn.0) ==> #[trigger] v.filed(x).head(f)
                == v.head(f),
        v.filed(x).root == v.root,
        v.filed(x).lost_found == v.lost_found,
        forall|i: EntryIdx|
            i != v.next_slot() ==> #[trigger] v.filed(x).detached.contains(i)
                == v.detached.contains(i),
        v.has(x.parent as int) ==> !v.filed(x).detached.contains(v.next_slot()),
{
    lemma_new_slot(v);
    let w = v.filed(x);
    let i = v.next_slot();
    let r = types::record_of(x.frn.0);
    assert forall|j: int| #[trigger] v.has(j) implies w.slots[j] == v.slots[j] by {}
    assert(w.free.no_duplicates());
    assert forall|k: int| #![trigger w.free[k]] 0 <= k < w.free.len() implies w.free[k]
        < w.slots.len() && w.slots[w.free[k] as int] is None by {
        assert(w.free[k] == v.free[k]);
        if v.free.len() > 0 {
            assert(v.free[k] != v.free[v.free.len() - 1]);
        }
    }
    assert forall|q: u64| #[trigger] w.chains.dom().contains(q) implies w.chain_ok(
        q,
        w.chains[q],
    ) by {
        if q != r {
            let c = v.chains[q];
            assert(v.chain_ok(q, c));
            assert forall|k: int| #![trigger c[k]] 0 <= k < c.len() implies w.has(c[k] as int)
                && w.ent(c[k]) == v.ent(c[k]) by {
                assert(v.has(c[k] as int));
            }
        } else {
            assert(w.chains[q] == seq![i]);
            assert(seq![i].no_duplicates());
        }
    }
    assert forall|f: Frn| types::record_of(f.0) != r implies #[trigger] w.head(f) == v.head(f) by {
        let q = types::record_of(f.0);
        if v.chains.dom().contains(q) {
            assert(v.chain_ok(q, v.chains[q]));
            assert(v.has(v.chains[q][0] as int));
        }
    }
}

/// What a new parent and name do to the entries.
pub(super) proof fn lemma_rewritten(v: Volume, h: EntryIdx, parent: EntryIdx, name: Seq<u8>, lossy: bool, dir: bool)
    requires
        v.ok(),
        v.has(h as int),
    ensures
        v.rewritten(h, parent, name, lossy, dir).ok(),
        forall|i: int| #[trigger]
            v.rewritten(h, parent, name, lossy, dir).has(i) == v.has(i),
        forall|i: int|
            i != h && #[trigger] v.has(i) ==> v.rewritten(h, parent, name, lossy, dir).slots[i]
                == v.slots[i],
        v.rewritten(h, parent, name, lossy, dir).ent(h) == (Ent {
            parent,
            name,
            lossy,
            dir,
            placeholder: false,
            ..v.ent(h)
        }),
        forall|f: Frn| #[trigger]
            v.rewritten(h, parent, name, lossy, dir).head(f) == v.head(f),
{
    let w = v.rewritten(h, parent, name, lossy, dir);
    assert forall|r: u64| #[trigger] w.chains.dom().contains(r) implies w.chain_ok(
        r,
        w.chains[r],
    ) by {
        let c = v.chains[r];
        assert(v.chain_ok(r, c));
        assert forall|k: int| #![trigger c[k]] 0 <= k < c.len() implies w.has(c[k] as int)
            && w.ent(c[k]).frn == v.ent(c[k]).frn by {
            assert(v.has(c[k] as int));
        }
    }
    assert forall|k: int| #![trigger w.free[k]] 0 <= k < w.free.len() implies w.free[k]
        < w.slots.len() && w.slots[w.free[k] as int] is None by {
        assert(w.free[k] == v.free[k]);
    }
    assert forall|f: Frn| #[trigger] w.head(f) == v.head(f) by {
        let r = types::record_of(f.0);
        if v.chains.dom().contains(r) {
            assert(v.chain_ok(r, v.chains[r]));
            let i = v.chains[r][0];
            assert(w.ent(i).frn == v.ent(i).frn);
        }
    }
}

/// The head of a file is an entry.
pub(super) proof fn lemma_head_there(v: Volume, f: Frn)
    requires
        v.ok(),
        v.head(f) is Some,
    ensures
        v.has(v.head(f)->0 as int),
        v.ent(v.head(f)->0).frn == f,
{
    let r = types::record_of(f.0);
    assert(v.chain_ok(r, v.chains[r]));
    assert(v.has(v.chains[r][0] as int));
}

/// The entry of a record number that no file shown has, or has as its parent,
/// may end.
proof fn lemma_dropped_tracks(
    v: Volume,
    files: Map<Frn, File>,
    root: Frn,
    seen: Set<Frn>,
    held: Set<Frn>,
    r: u64,
)
    requires
        v.ok(),
        tracks(v, files, root, seen, held),
        v.chains.dom().contains(r),
        types::record_of(root.0) != r,
        forall|g: Frn| #[trigger]
            seen.contains(g) ==> types::record_of(g.0) != r && types::record_of(files[g].parent.0)
                != r,
    ensures
        v.dropped(r).ok(),
        v.dropped(r).slots.len() == v.slots.len(),
        v.dropped(r).chains == v.chains.remove(r),
        tracks(v.dropped(r), files, root, seen, held),
        forall|g: Frn|
            types::record_of(g.0) != r ==> #[trigger] v.dropped(r).head(g) == v.head(g),
{
    let c = v.chains[r];
    assert(lone(v, held, r));
    assert(v.chain_ok(r, c));
    let h = c[0];
    assert(v.has(h as int));
    let w = v.dropped(r);
    assert(c.drop_last() =~= Seq::empty());
    assert(v.all_ended(c.drop_last()) == v);
    assert(c.last() == h);
    assert(v.all_ended(c) == v.ended(h));
    assert(w == (Volume { chains: v.chains.remove(r), ..v.ended(h) }));
    lemma_dropped_ok(v, r);
    assert forall|i: int| #[trigger] w.has(i) <==> v.has(i) && i != h by {}
    assert forall|i: int| #[trigger] w.has(i) implies w.slots[i] == v.slots[i] by {}
    assert forall|q: u64| #[trigger] w.chains.dom().contains(q) implies v.chains[q][0] != h && lone(
        w,
        held,
        q,
    ) by {
        assert(v.chains.dom().contains(q));
        assert(v.chain_ok(q, v.chains[q]));
        assert(lone(v, held, q));
        assert(v.has(v.chains[q][0] as int));
        assert(types::record_of(v.ent(v.chains[q][0]).frn.0) == q);
        assert(types::record_of(v.ent(h).frn.0) == r);
    }
    assert forall|g: Frn| types::record_of(g.0) != r implies #[trigger] w.head(g) == v.head(g) by {
        let q = types::record_of(g.0);
        if v.chains.dom().contains(q) {
            assert(w.chains.dom().contains(q));
            assert(v.chain_ok(q, v.chains[q]));
            assert(v.has(v.chains[q][0] as int));
        }
    }
    lemma_head_there(v, root);
    assert(v.root != h) by {
        assert(types::record_of(v.ent(h).frn.0) == r);
    }
    assert(!v.hangs_on(v.root, h));
    assert forall|g: Frn| #[trigger] seen.contains(g) implies shown(w, files, g) by {
        assert(shown(v, files, g));
        lemma_head_there(v, g);
        lemma_head_there(v, files[g].parent);
        let i = v.head(g)->0;
        assert(w.head(g) == v.head(g));
        assert(w.head(files[g].parent) == v.head(files[g].parent));
        assert(i != h);
        assert(v.ent(i).parent != h);
        assert(w.has(i as int));
        assert(!v.hangs_on(i, h));
    }
    assert forall|i: int| #[trigger] w.has(i) implies i == w.lost_found || findable(w, i) by {
        assert(v.has(i));
        if i != v.lost_found {
            assert(findable(v, i));
            let q = types::record_of(v.slots[i]->0.frn.0);
            assert(q != r);
        }
    }
}

/// A known file that has no entry gets its record number; the entry that had
/// it was none of a known file.
proof fn lemma_claimed_tracks(
    v: Volume,
    files: Map<Frn, File>,
    root: Frn,
    seen: Set<Frn>,
    held: Set<Frn>,
    p: Frn,
)
    requires
        v.ok(),
        files_ok(files, root),
        tracks(v, files, root, seen, held),
        known(files, root, p),
        v.head(p) is None,
    ensures
        ({
            let w = v.reclaimed(types::record_of(p.0));
            &&& w.ok()
            &&& w.slots.len() == v.slots.len()
            &&& !w.chains.dom().contains(types::record_of(p.0))
            &&& tracks(w, files, root, seen, held)
            &&& forall|g: Frn|
                known(files, root, g) && g != p ==> #[trigger] w.head(g) == v.head(g)
        }),
{
    let r = types::record_of(p.0);
    assert(p != root);
    assert forall|g: Frn| known(files, root, g) && g != p implies types::record_of(
        #[trigger] g.0,
    ) != r by {
        assert(known(files, root, g) && known(files, root, p));
    }
    assert(known(files, root, root));
    if v.chains.dom().contains(r) {
        assert forall|g: Frn| #[trigger] seen.contains(g) implies types::record_of(g.0) != r
            && types::record_of(files[g].parent.0) != r by {
            assert(shown(v, files, g));
            assert(known(files, root, g));
            assert(known(files, root, files[g].parent));
        }
        lemma_dropped_tracks(v, files, root, seen, held, r);
        lemma_recounted(v.dropped(r), v.reclaimed(r), files, root, seen, held);
        assert forall|g: Frn| known(files, root, g) && g != p implies #[trigger] v.reclaimed(
            r,
        ).head(g) == v.head(g) by {
            assert(types::record_of(g.0) != r);
            assert(v.reclaimed(r).head(g) == v.dropped(r).head(g));
            assert(v.dropped(r).head(g) == v.head(g));
        }
    }
}

/// One more entry for a file that has none leaves the others alone.
proof fn lemma_filed_tracks(
    v: Volume,
    files: Map<Frn, File>,
    root: Frn,
    seen: Set<Frn>,
    held: Set<Frn>,
    x: Ent,
)
    requires
        v.ok(),
        v.slots.len() + 1 < NIL,
        tracks(v, files, root, seen, held),
        !v.chains.dom().contains(types::record_of(x.frn.0)),
    ensures
        tracks(v.filed(x), files, root, seen, held.insert(x.frn)),
        v.filed(x).ok(),
        v.filed(x).slots.len() <= v.slots.len() + 1,
        v.filed(x).has(v.next_slot() as int),
        v.filed(x).head(x.frn) == Some(v.next_slot()),
        v.filed(x).ent(v.next_slot()) == x,
        v.has(x.parent as int) ==> !v.filed(x).detached.contains(v.next_slot()),
        forall|f: Frn| #[trigger] v.head(f) is Some ==> v.filed(x).head(f) == v.head(f),
{
    lemma_filed(v, x);
    lemma_new_slot(v);
    let w = v.filed(x);
    let r = types::record_of(x.frn.0);
    assert forall|f: Frn| #[trigger] v.head(f) is Some implies w.head(f) == v.head(f) by {
        assert(types::record_of(f.0) != r);
    }
    lemma_head_there(v, root);
    assert(w.slots[v.root as int] == v.slots[v.root as int]);
    assert(v.has(v.lost_found as int));
    assert forall|f: Frn| #[trigger] seen.contains(f) implies shown(w, files, f) by {
        assert(shown(v, files, f));
        lemma_head_there(v, f);
        assert(w.head(f) == v.head(f));
        assert(w.head(files[f].parent) == v.head(files[f].parent));
        assert(w.slots[v.head(f)->0 as int] == v.slots[v.head(f)->0 as int]);
    }
    assert forall|q: u64| #[trigger] w.chains.dom().contains(q) implies lone(
        w,
        held.insert(x.frn),
        q,
    ) by {
        if q != r {
            assert(lone(v, held, q));
            assert(v.chain_ok(q, v.chains[q]));
            assert(v.has(v.chains[q][0] as int));
        }
    }
    assert forall|i: int| #[trigger] w.has(i) implies i == w.lost_found || findable(w, i) by {
        if i != v.next_slot() {
            assert(v.has(i));
            if i != v.lost_found {
                assert(findable(v, i));
            }
        }
    }
}

/// A known parent has an entry after it was resolved.
proof fn lemma_resolved_tracks(
    v: Volume,
    files: Map<Frn, File>,
    root: Frn,
    seen: Set<Frn>,
    held: Set<Frn>,
    p: Frn,
)
    requires
        v.ok(),
        v.slots.len() + 1 < NIL,
        files_ok(files, root),
        tracks(v, files, root, seen, held),
        known(files, root, p),
    ensures
        ({
            let (w, q) = v.resolved(p);
            &&& w.ok()
            &&& tracks(w, files, root, seen, held.insert(p))
            &&& w.head(p) == Some(q)
            &&& w.slots.len() <= v.slots.len() + 1
        }),
{
    if v.head(p) is None {
        lemma_claimed_tracks(v, files, root, seen, held, p);
        let a = v.reclaimed(types::record_of(p.0));
        let x = model::new_ent(p, a.lost_found, model::placeholder_name(), false, true, true);
        lemma_filed_tracks(a, files, root, seen, held, x);
        let w = a.placeheld(p);
        assert(w == v.resolved(p).0);
        lemma_recounted(a.filed(x), w, files, root, seen, held.insert(p));
        assert(w.head(p) == a.filed(x).head(p));
    } else {
        lemma_held(v, files, root, seen, held, held.insert(p));
    }
}

/// More files may be there.
proof fn lemma_held(
    v: Volume,
    files: Map<Frn, File>,
    root: Frn,
    seen: Set<Frn>,
    held: Set<Frn>,
    more: Set<Frn>,
)
    requires
        tracks(v, files, root, seen, held),
        forall|r: u64| #[trigger]
            v.chains.dom().contains(r) && held.contains(v.ent(v.chains[r][0]).frn)
                ==> more.contains(v.ent(v.chains[r][0]).frn),
    ensures
        tracks(v, files, root, seen, more),
{
    assert forall|r: u64| #[trigger] v.chains.dom().contains(r) implies lone(v, more, r) by {
        assert(lone(v, held, r));
    }
}

/// Counters do not matter.
proof fn lemma_recounted(
    a: Volume,
    b: Volume,
    files: Map<Frn, File>,
    root: Frn,
    seen: Set<Frn>,
    held: Set<Frn>,
)
    requires
        a.slots == b.slots,
        a.free == b.free,
        a.chains == b.chains,
        a.detached == b.detached,
        a.root == b.root,
        a.lost_found == b.lost_found,
        a.ok(),
        tracks(a, files, root, seen, held),
    ensures
        b.ok(),
        tracks(b, files, root, seen, held),
        forall|f: Frn| #[trigger] b.head(f) == a.head(f),
{
    assert forall|f: Frn| #[trigger] b.head(f) == a.head(f) by {}
    assert forall|i: int| #[trigger] b.has(i) == a.has(i) by {}
    assert forall|r: u64| #[trigger] b.chains.dom().contains(r) implies b.chain_ok(
        r,
        b.chains[r],
    ) && lone(b, held, r) by {
        assert(a.chain_ok(r, a.chains[r]));
        assert(lone(a, held, r));
        let c = a.chains[r];
        assert forall|k: int| #![trigger c[k]] 0 <= k < c.len() implies b.has(c[k] as int) by {
            assert(a.has(c[k] as int));
        }
    }
    assert forall|f: Frn| #[trigger] seen.contains(f) implies shown(b, files, f) by {
        assert(shown(a, files, f));
    }
    assert forall|i: int| #[trigger] b.has(i) implies i == b.lost_found || findable(b, i) by {
        assert(a.has(i));
        if i != a.lost_found {
            assert(findable(a, i));
        }
    }
}

/// After a file was created, renamed or moved, the index shows it as it is
/// now, and every other file as before.
proof fn lemma_upsert_tracks(
    v: Volume,
    files: Map<Frn, File>,
    root: Frn,
    seen: Set<Frn>,
    held: Set<Frn>,
    f: Frn,
    x: File,
)
    requires
        v.ok(),
        v.slots.len() + 2 < NIL,
        tracks(v, files, root, seen, held),
        files_ok(files.insert(f, x), root),
    ensures
        ({
            let (w, needs_reconcile) = v.upserted(f, x.parent, x.name, x.lossy, x.dir);
            &&& !needs_reconcile
            &&& w.ok()
            &&& tracks(
                w,
                files.insert(f, x),
                root,
                seen.insert(f),
                held.insert(x.parent).insert(f),
            )
            &&& w.slots.len() <= v.slots.len() + 2
        }),
{
    let now = files.insert(f, x);
    let rest = seen.remove(f);
    assert(now.dom().contains(f));
    assert(tracks(v, now, root, rest, held)) by {
        assert forall|g: Frn| #[trigger] rest.contains(g) implies shown(v, now, g) by {
            assert(seen.contains(g));
            assert(shown(v, files, g));
        }
    }
    let p = x.parent;
    let more = held.insert(p);
    assert(known(now, root, now[f].parent));
    lemma_resolved_tracks(v, now, root, rest, held, p);
    let (w, q) = v.resolved(p);
    assert(known(now, root, f));
    lemma_head_there(w, p);
    let r = types::record_of(f.0);
    let done = v.upserted(f, p, x.name, x.lossy, x.dir).0;
    assert(f != root);
    match w.head(f) {
        Some(h) => {
            assert(lone(w, more, r));
            lemma_head_there(w, f);
            lemma_rewritten(w, h, q, x.name, x.lossy, x.dir);
            assert(done == w.rewritten(h, q, x.name, x.lossy, x.dir));
            lemma_head_there(w, root);
            assert(h != w.root);
            assert(done.head(root) == w.head(root));
            assert forall|g: Frn| #[trigger] seen.insert(f).contains(g) implies shown(
                done,
                now,
                g,
            ) by {
                assert(done.head(g) == w.head(g));
                assert(done.head(now[g].parent) == w.head(now[g].parent));
                if g != f {
                    assert(rest.contains(g));
                    assert(shown(w, now, g));
                    lemma_head_there(w, g);
                }
            }
            assert forall|k: u64| #[trigger] done.chains.dom().contains(k) implies lone(
                done,
                more.insert(f),
                k,
            ) by {
                assert(lone(w, more, k));
                assert(w.chain_ok(k, w.chains[k]));
                assert(w.has(w.chains[k][0] as int));
            }
            assert forall|i: int| #[trigger] done.has(i) implies i == done.lost_found || findable(
                done,
                i,
            ) by {
                assert(w.has(i));
                if i != w.lost_found {
                    assert(findable(w, i));
                }
            }
        },
        None => {
            let e = model::new_ent(f, q, x.name, x.lossy, x.dir, false);
            assert(f != p);
            lemma_claimed_tracks(w, now, root, rest, more, f);
            let a = w.reclaimed(r);
            assert(a.head(p) == w.head(p));
            lemma_head_there(a, p);
            lemma_filed_tracks(a, now, root, rest, more, e);
            assert(done == a.filed(e));
            assert forall|g: Frn| #[trigger] seen.insert(f).contains(g) implies shown(
                done,
                now,
                g,
            ) by {
                if g != f {
                    assert(rest.contains(g));
                } else {
                    assert(a.head(p) is Some);
                }
            }
        },
    }
}

/// An index that mirrors a file system mirrors it still after a file was
/// created, renamed or moved: the file is shown as it is now, and every other
/// file as before. The parent may be one that was not seen yet.
pub proof fn law_upsert_keeps_the_mirror(
    v: Volume,
    files: Map<Frn, File>,
    root: Frn,
    seen: Set<Frn>,
    f: Frn,
    x: File,
)
    requires
        v.ok(),
        v.slots.len() + 2 < NIL,
        mirrors(v, files, root, seen),
        files_ok(files.insert(f, x), root),
    ensures
        ({
            let (w, needs_reconcile) = v.upserted(f, x.parent, x.name, x.lossy, x.dir);
            &&& !needs_reconcile
            &&& w.ok()
            &&& mirrors(w, files.insert(f, x), root, seen.insert(f))
            &&& w.slots.len() <= v.slots.len() + 2
        }),
{
    let now = files.insert(f, x);
    let held = all_known(files, root);
    lemma_upsert_tracks(v, files, root, seen, held, f, x);
    assert(now.dom().contains(f));
    assert(known(now, root, now[f].parent));
    lemma_held(
        v.upserted(f, x.parent, x.name, x.lossy, x.dir).0,
        now,
        root,
        seen.insert(f),
        held.insert(x.parent).insert(f),
        all_known(now, root),
    );
}

/// After a file without children was deleted, the index shows every other file
/// as before.
proof fn lemma_delete_tracks(
    v: Volume,
    files: Map<Frn, File>,
    root: Frn,
    seen: Set<Frn>,
    held: Set<Frn>,
    f: Frn,
)
    requires
        v.ok(),
        files_ok(files, root),
        tracks(v, files, root, seen, held),
        f != root,
        forall|g: Frn| #[trigger] files.dom().contains(g) ==> files[g].parent != f,
    ensures
        ({
            let (w, found) = v.deleted(f);
            &&& found == v.head(f) is Some
            &&& w.ok()
            &&& tracks(w, files.remove(f), root, seen.remove(f), held.remove(f))
            &&& w.slots.len() == v.slots.len()
        }),
{
    let r = types::record_of(f.0);
    let left = files.remove(f);
    let rest = seen.remove(f);
    let w = v.deleted(f).0;
    assert(tracks(v, left, root, rest, held)) by {
        assert forall|g: Frn| #[trigger] rest.contains(g) implies shown(v, left, g) by {
            assert(seen.contains(g));
            assert(shown(v, files, g));
        }
    }
    if v.head(f) is Some {
        lemma_head_there(v, f);
        assert forall|g: Frn| v.head(g) is Some && g != f implies types::record_of(
            #[trigger] g.0,
        ) != r by {
            lemma_head_there(v, g);
        }
        assert(root.0 == root.0);
        assert forall|g: Frn| #[trigger] rest.contains(g) implies types::record_of(g.0) != r
            && types::record_of(left[g].parent.0) != r by {
            assert(shown(v, left, g));
            assert(files.dom().contains(g));
            assert(left[g].parent != f);
            assert(v.head(left[g].parent) is Some);
            lemma_head_there(v, g);
            lemma_head_there(v, left[g].parent);
        }
        assert(types::record_of(root.0) != r) by {
            lemma_head_there(v, root);
        }
        lemma_dropped_tracks(v, left, root, rest, held, r);
    }
    assert forall|q: u64| #[trigger]
        w.chains.dom().contains(q) && held.contains(w.ent(w.chains[q][0]).frn) implies held.remove(
        f,
    ).contains(w.ent(w.chains[q][0]).frn) by {
        assert(w.chain_ok(q, w.chains[q]));
        assert(types::record_of(w.ent(w.chains[q][0]).frn.0) == q);
    }
    lemma_held(w, left, root, rest, held, held.remove(f));
}

/// An index that mirrors a file system mirrors it still after a file without
/// children was deleted.
pub proof fn law_delete_keeps_the_mirror(
    v: Volume,
    files: Map<Frn, File>,
    root: Frn,
    seen: Set<Frn>,
    f: Frn,
)
    requires
        v.ok(),
        files_ok(files, root),
        mirrors(v, files, root, seen),
        seen.contains(f),
        forall|g: Frn| #[trigger] files.dom().contains(g) ==> files[g].parent != f,
    ensures
        ({
            let (w, found) = v.deleted(f);
            &&& found
            &&& w.ok()
            &&& mirrors(w, files.remove(f), root, seen.remove(f))
            &&& w.slots.len() == v.slots.len()
        }),
{
    assert(shown(v, files, f));
    lemma_delete_tracks(v, files, root, seen, all_known(files, root), f);
    lemma_held(
        v.deleted(f).0,
        files.remove(f),
        root,
        seen.remove(f),
        all_known(files, root).remove(f),
        all_known(files.remove(f), root),
    );
}

/// The index after the files were listed in some order.
pub open spec fn all_listed(v: Volume, files: Map<Frn, File>, order: Seq<Frn>) -> Volume
    decreases order.len(),
{
    if order.len() == 0 {
        v
    } else {
        let f = order.last();
        let x = files[f];
        all_listed(v, files, order.drop_last()).upserted(f, x.parent, x.name, x.lossy, x.dir).0
    }
}

proof fn lemma_all_listed(
    v: Volume,
    files: Map<Frn, File>,
    root: Frn,
    seen: Set<Frn>,
    order: Seq<Frn>,
)
    requires
        v.ok(),
        files_ok(files, root),
        mirrors(v, files, root, seen),
        v.slots.len() + 2 * order.len() < NIL,
        forall|k: int| 0 <= k < order.len() ==> files.dom().contains(#[trigger] order[k]),
    ensures
        all_listed(v, files, order).ok(),
        all_listed(v, files, order).slots.len() <= v.slots.len() + 2 * order.len(),
        mirrors(all_listed(v, files, order), files, root, seen.union(order.to_set())),
        v.surplus() == 0 ==> all_listed(v, files, order).surplus() == 0,
    decreases order.len(),
{
    if order.len() == 0 {
        assert(seen.union(order.to_set()) =~= seen);
    } else {
        let before = order.drop_last();
        let f = order.last();
        assert forall|k: int| 0 <= k < before.len() implies files.dom().contains(
            #[trigger] before[k],
        ) by {
            assert(files.dom().contains(order[k]));
        }
        lemma_all_listed(v, files, root, seen, before);
        assert(files.dom().contains(order[order.len() - 1]));
        assert(files.insert(f, files[f]) =~= files);
        law_upsert_keeps_the_mirror(
            all_listed(v, files, before),
            files,
            root,
            seen.union(before.to_set()),
            f,
            files[f],
        );
        if v.surplus() == 0 {
            let x = files[f];
            lemma_upserted_surplus(
                all_listed(v, files, before),
                f,
                x.parent,
                x.name,
                x.lossy,
                x.dir,
            );
        }
        assert(seen.union(before.to_set()).insert(f) =~= seen.union(order.to_set())) by {
            assert forall|g: Frn|
                seen.union(before.to_set()).insert(f).contains(g) <==> seen.union(
                    order.to_set(),
                ).contains(g) by {
                if before.to_set().contains(g) {
                    let k = choose|k: int| 0 <= k < before.len() && before[k] == g;
                    assert(order[k] == g);
                    assert(order.contains(g));
                }
                if order.to_set().contains(g) {
                    let k = choose|k: int| 0 <= k < order.len() && order[k] == g;
                    if k < before.len() {
                        assert(before[k] == g);
                        assert(before.contains(g));
                    }
                }
                assert(order[order.len() - 1] == f);
                assert(order.contains(f));
            }
        }
    }
}

pub(super) proof fn lemma_reclaimed_surplus(v: Volume, r: u64)
    requires
        v.ok(),
        v.surplus() >= 0,
    ensures
        v.chains.dom().contains(r) ==> v.dropped(r).surplus() == v.surplus(),
        v.reclaimed(r).surplus() == v.surplus(),
        v.reclaimed(r).ok(),
        v.reclaimed(r).slots.len() == v.slots.len(),
        v.reclaimed(r).chains == v.chains.remove(r),
{
    if v.chains.dom().contains(r) {
        let c = v.chains[r];
        assert(v.chain_ok(r, c));
        assert forall|k: int| 0 <= k < c.len() implies v.has(#[trigger] c[k] as int) by {}
        standins::lemma_all_ended(v, c);
        lemma_all_ended_ok(v, r);
    } else {
        assert(v.chains =~= v.chains.remove(r));
    }
}

/// Seeing a file keeps the count of placeholders as good as it was.
pub(super) proof fn lemma_upserted_surplus(
    v: Volume,
    f: Frn,
    parent: Frn,
    name: Seq<u8>,
    lossy: bool,
    dir: bool,
)
    requires
        v.ok(),
        v.slots.len() + 2 < NIL,
        v.surplus() >= 0,
    ensures
        v.upserted(f, parent, name, lossy, dir).0.surplus() == v.surplus(),
{
    let (a, q) = v.resolved(parent);
    if v.head(parent) is None {
        let r = types::record_of(parent.0);
        lemma_reclaimed_surplus(v, r);
        let b = v.reclaimed(r);
        let x = model::new_ent(parent, b.lost_found, model::placeholder_name(), false, true, true);
        lemma_new_slot(b);
        standins::lemma_created(b, x);
        lemma_filed(b, x);
        lemma_recounted_ok(b.filed(x), a);
    }
    assert(a.ok() && a.surplus() == v.surplus() && a.slots.len() <= v.slots.len() + 1);
    match a.head(f) {
        Some(h) => {
            lemma_head_there(a, f);
            standins::lemma_rewritten(a, h, q, name, lossy, dir);
        },
        None => {
            let r = types::record_of(f.0);
            lemma_reclaimed_surplus(a, r);
            let b = a.reclaimed(r);
            lemma_new_slot(b);
            standins::lemma_created(b, model::new_ent(f, q, name, lossy, dir, false));
        },
    }
}

/// No entry of a whole mirror is a placeholder.
proof fn lemma_no_placeholder(v: Volume, files: Map<Frn, File>, root: Frn, i: int)
    requires
        v.ok(),
        v.has(i),
        mirrors(v, files, root, files.dom()),
    ensures
        !v.slots[i]->0.placeholder,
{
    if i != v.lost_found && i != v.root {
        assert(findable(v, i));
        let f = v.slots[i]->0.frn;
        let r = types::record_of(f.0);
        assert(lone(v, all_known(files, root), r));
        assert(v.head(f) == Some(i as EntryIdx));
        assert(f != root);
        assert(shown(v, files, f));
    }
}

/// However the files of a volume are listed, children before parents or after
/// them, some of them twice, the index shows all of them as they are in the
/// end.
pub proof fn law_listing_order_does_not_matter(
    files: Map<Frn, File>,
    root: Frn,
    order: Seq<Frn>,
)
    requires
        files_ok(files, root),
        2 * order.len() + 2 < NIL,
        forall|k: int| 0 <= k < order.len() ==> files.dom().contains(#[trigger] order[k]),
        forall|f: Frn| #[trigger] files.dom().contains(f) ==> order.contains(f),
    ensures
        mirrors(
            all_listed(model::new_volume(root), files, order),
            files,
            root,
            files.dom(),
        ),
        all_listed(model::new_volume(root), files, order).ok(),
        all_listed(model::new_volume(root), files, order).slots.len() <= 2 * order.len() + 2,
        all_listed(model::new_volume(root), files, order).placeholders == 0,
{
    let v = model::new_volume(root);
    let r = types::record_of(root.0);
    assert(v.chains[r] == seq![0u32]);
    assert(seq![0u32].no_duplicates());
    assert(v.has(0) && v.has(1));
    assert(v.ok());
    assert(mirrors(v, files, root, Set::empty())) by {
        assert forall|i: int| #[trigger] v.has(i) implies i == v.lost_found || findable(v, i) by {
            assert(i == 0 || i == 1);
        }
    }
    lemma_all_listed(v, files, root, Set::empty(), order);
    assert(Set::<Frn>::empty().union(order.to_set()) =~= files.dom()) by {
        assert forall|f: Frn| order.to_set().contains(f) <==> files.dom().contains(f) by {
            if order.to_set().contains(f) {
                let k = choose|k: int| 0 <= k < order.len() && order[k] == f;
                assert(files.dom().contains(order[k]));
            }
        }
    }
    let w = all_listed(v, files, order);
    standins::lemma_none(v.slots);
    assert(w.surplus() == 0);
    standins::lemma_none(w.slots);
    assert forall|i: int| 0 <= i < w.slots.len() implies standins::stands_in(#[trigger] w.slots[i])
        == 0 by {
        if w.has(i) {
            lemma_no_placeholder(w, files, root, i);
        }
    }
}

/// In an index that mirrors a whole file system every entry, the two topmost
/// directories aside, is that of a file, and none is a placeholder.
pub proof fn law_a_whole_mirror_has_no_placeholder(
    v: Volume,
    files: Map<Frn, File>,
    root: Frn,
    i: EntryIdx,
)
    requires
        v.ok(),
        files_ok(files, root),
        mirrors(v, files, root, files.dom()),
        v.has(i as int),
        i != v.lost_found,
        i != v.root,
    ensures
        !v.ent(i).placeholder,
        files.dom().contains(v.ent(i).frn),
        v.head(v.ent(i).frn) == Some(i),
{
    assert(findable(v, i as int));
    let f = v.ent(i).frn;
    let r = types::record_of(f.0);
    assert(lone(v, all_known(files, root), r));
    assert(v.head(f) == Some(i));
    assert(f != root);
    assert(shown(v, files, f));
}

/// Renaming or moving a file of one link whose parent is known is one write to
/// one entry; all other entries, those of its children among them, stay as
/// they are.
pub proof fn law_rename_writes_one_entry(
    v: Volume,
    f: Frn,
    parent: Frn,
    name: Seq<u8>,
    lossy: bool,
    dir: bool,
    i: EntryIdx,
)
    requires
        v.ok(),
        v.head(f) is Some,
        v.head(parent) is Some,
        v.chains[types::record_of(f.0)].len() == 1,
    ensures
        ({
            let w = v.upserted(f, parent, name, lossy, dir).0;
            &&& w.dirty == v.dirty + 1
            &&& w.chains == v.chains
            &&& w.free == v.free
            &&& w.slots.len() == v.slots.len()
            &&& i != v.head(f)->0 && v.has(i as int) ==> w.slots[i as int] == v.slots[i as int]
            &&& w.ent(v.head(f)->0).parent == v.head(parent)->0
            &&& w.ent(v.head(f)->0).name == name
        }),
{
    let r = types::record_of(f.0);
    assert(v.chain_ok(r, v.chains[r]));
    assert(v.has(v.head(f)->0 as int));
}

/// A file whose parent is not known is kept: the parent gets a placeholder in
/// the lost and found directory, and the file is its child.
pub proof fn law_orphan_is_kept(
    v: Volume,
    f: Frn,
    parent: Frn,
    name: Seq<u8>,
    lossy: bool,
    dir: bool,
)
    requires
        v.ok(),
        v.slots.len() + 2 < NIL,
        !v.chains.dom().contains(types::record_of(f.0)),
        !v.chains.dom().contains(types::record_of(parent.0)),
        types::record_of(f.0) != types::record_of(parent.0),
    ensures
        ({
            let w = v.upserted(f, parent, name, lossy, dir).0;
            &&& w.head(f) is Some
            &&& w.head(parent) is Some
            &&& w.ent(w.head(f)->0).parent == w.head(parent)->0
            &&& w.ent(w.head(parent)->0).placeholder
            &&& w.ent(w.head(parent)->0).parent == v.lost_found
            &&& w.placeholders == v.placeholders + 1
        }),
{
    let x = model::new_ent(parent, v.lost_found, model::placeholder_name(), false, true, true);
    lemma_filed(v, x);
    let a = v.placeheld(parent);
    lemma_recounted_ok(v.filed(x), a);
    let y = model::new_ent(f, v.next_slot(), name, lossy, dir, false);
    lemma_filed(a, y);
    assert(a.head(parent) == Some(v.next_slot()));
    assert(a.has(v.next_slot() as int));
}

pub(super) proof fn lemma_recounted_ok(a: Volume, b: Volume)
    requires
        a.slots == b.slots,
        a.free == b.free,
        a.chains == b.chains,
        a.lost_found == b.lost_found,
        a.ok(),
    ensures
        b.ok(),
        forall|f: Frn| #[trigger] b.head(f) == a.head(f),
        forall|i: int| #[trigger] b.has(i) == a.has(i),
{
    assert forall|f: Frn| #[trigger] b.head(f) == a.head(f) by {}
    assert forall|i: int| #[trigger] b.has(i) == a.has(i) by {}
    assert forall|r: u64| #[trigger] b.chains.dom().contains(r) implies b.chain_ok(
        r,
        b.chains[r],
    ) by {
        assert(a.chain_ok(r, a.chains[r]));
        let c = a.chains[r];
        assert forall|k: int| #![trigger c[k]] 0 <= k < c.len() implies b.has(c[k] as int) by {
            assert(a.has(c[k] as int));
        }
    }
}

/// A directory that arrives late takes the slot of its placeholder, so its
/// children find it without being written.
pub proof fn law_placeholder_is_filled_in_place(
    v: Volume,
    f: Frn,
    parent: Frn,
    name: Seq<u8>,
    lossy: bool,
)
    requires
        v.ok(),
        v.head(f) is Some,
        v.ent(v.head(f)->0).placeholder,
        v.head(parent) is Some,
        v.chains[types::record_of(f.0)].len() == 1,
    ensures
        ({
            let w = v.upserted(f, parent, name, lossy, true).0;
            &&& w.head(f) == v.head(f)
            &&& !w.ent(v.head(f)->0).placeholder
            &&& w.ent(v.head(f)->0).name == name
            &&& w.placeholders == model::less_one(v.placeholders)
        }),
{
    let r = types::record_of(f.0);
    assert(v.chain_ok(r, v.chains[r]));
    assert(v.has(v.head(f)->0 as int));
    lemma_rewritten(v, v.head(f)->0, v.head(parent)->0, name, lossy, true);
}

/// Seeing a file a second time as it is only counts as a write.
pub proof fn law_upsert_is_idempotent(
    v: Volume,
    f: Frn,
    parent: Frn,
    name: Seq<u8>,
    lossy: bool,
    dir: bool,
)
    requires
        v.ok(),
        v.slots.len() + 2 < NIL,
        v.chains.dom().contains(types::record_of(parent.0)) ==> v.head(parent) is Some,
        v.chains.dom().contains(types::record_of(f.0)) ==> v.head(f) is Some,
        types::record_of(f.0) != types::record_of(parent.0),
    ensures
        ({
            let (w, needs) = v.upserted(f, parent, name, lossy, dir);
            let (again, needs_again) = w.upserted(f, parent, name, lossy, dir);
            &&& needs_again == needs
            &&& again == (Volume {
                dirty: if needs {
                    w.dirty
                } else {
                    w.dirty + 1
                },
                ..w
            })
        }),
{
    let a = v.resolved(parent).0;
    let q = v.resolved(parent).1;
    let rp = types::record_of(parent.0);
    let r = types::record_of(f.0);
    if v.head(parent) is None {
        let x = model::new_ent(parent, v.lost_found, model::placeholder_name(), false, true, true);
        lemma_filed(v, x);
        lemma_recounted_ok(v.filed(x), a);
        assert(a.head(parent) == Some(q));
        assert(a.head(f) == v.head(f));
    }
    assert(a.head(parent) == Some(q));
    let (w, needs) = v.upserted(f, parent, name, lossy, dir);
    match a.head(f) {
        Some(h) => {
            assert(a.chain_ok(r, a.chains[r]));
            assert(a.has(h as int));
            if a.chains[r].len() == 1 {
                lemma_rewritten(a, h, q, name, lossy, dir);
                assert(w.head(parent) == Some(q));
                assert(w.head(f) == Some(h));
                assert(w.rewritten(h, q, name, lossy, dir).slots =~= w.slots);
            }
        },
        None => {
            let e = model::new_ent(f, q, name, lossy, dir, false);
            lemma_filed(a, e);
            let h = a.next_slot();
            assert(w.head(parent) == Some(q));
            assert(w.head(f) == Some(h));
            assert(w.chains[r].len() == 1);
            assert(w.rewritten(h, q, name, lossy, dir).slots =~= w.slots);
        },
    }
}

/// A deleted file is gone with all its links, and no other entry is touched.
pub proof fn law_delete_ends_all_links(v: Volume, f: Frn, i: EntryIdx)
    requires
        v.ok(),
        v.head(f) is Some,
        v.has(i as int),
    ensures
        ({
            let (w, found) = v.deleted(f);
            &&& found
            &&& w.head(f) is None
            &&& w.has(i as int) <==> !v.chains[types::record_of(f.0)].contains(i)
            &&& w.has(i as int) ==> w.slots[i as int] == v.slots[i as int]
        }),
{
    let c = v.chains[types::record_of(f.0)];
    assert(v.chain_ok(types::record_of(f.0), c));
    lemma_all_ended(v, c);
}

pub(super) proof fn lemma_all_ended(v: Volume, c: Seq<EntryIdx>)
    requires
        forall|k: int| 0 <= k < c.len() ==> #[trigger] c[k] < v.slots.len(),
    ensures
        v.all_ended(c).slots.len() == v.slots.len(),
        forall|i: EntryIdx|
            i < v.slots.len() ==> #[trigger] v.all_ended(c).slots[i as int] == (if c.contains(i) {
                None
            } else {
                v.slots[i as int]
            }),
    decreases c.len(),
{
    if c.len() > 0 {
        let d = c.drop_last();
        assert forall|k: int| 0 <= k < d.len() implies #[trigger] d[k] < v.slots.len() by {
            assert(c[k] < v.slots.len());
        }
        lemma_all_ended(v, d);
        assert(c[c.len() - 1] < v.slots.len());
        assert forall|i: EntryIdx|
            i < v.slots.len() implies #[trigger] v.all_ended(c).slots[i as int] == (if c.contains(
            i,
        ) {
            None
        } else {
            v.slots[i as int]
        }) by {
            assert(v.all_ended(d).slots[i as int] == (if d.contains(i) {
                None
            } else {
                v.slots[i as int]
            }));
            if c.contains(i) {
                let k = choose|k: int| 0 <= k < c.len() && c[k] == i;
                if k < d.len() {
                    assert(d[k] == i);
                }
            }
            if d.contains(i) {
                let k = choose|k: int| 0 <= k < d.len() && d[k] == i;
                assert(c[k] == i);
            }
            if c.last() == i {
                assert(c.contains(i));
            }
        }
    }
}

/// Deleting a file that is not in the index changes nothing.
pub proof fn law_unknown_delete_changes_nothing(v: Volume, f: Frn)
    requires
        v.head(f) is None,
    ensures
        v.deleted(f) == (v, false),
{
}

/// When a record number is given to another file, the entries of the file that
/// had it before end: they are never taken for the new file.
pub proof fn law_reused_record_is_the_new_file(
    v: Volume,
    gone: Frn,
    f: Frn,
    parent: Frn,
    name: Seq<u8>,
    lossy: bool,
    dir: bool,
)
    requires
        v.ok(),
        v.slots.len() + 2 < NIL,
        v.head(gone) is Some,
        gone != f,
        types::record_of(gone.0) == types::record_of(f.0),
        v.head(parent) is Some,
        types::record_of(parent.0) != types::record_of(f.0),
    ensures
        ({
            let w = v.upserted(f, parent, name, lossy, dir).0;
            &&& w.head(f) is Some
            &&& w.head(gone) is None
            &&& w.ent(w.head(f)->0).name == name
            &&& w.ent(w.head(f)->0).parent == v.head(parent)->0
            &&& w.stats.stale_slots == v.stats.stale_slots + 1
            &&& forall|i: EntryIdx| #[trigger]
                w.has(i as int) && w.ent(i).frn == gone ==> v.has(i as int) && !v.chains[types::record_of(
                    f.0,
                )].contains(i)
        }),
{
    let r = types::record_of(f.0);
    let c = v.chains[r];
    assert(v.chain_ok(r, c));
    lemma_all_ended(v, c);
    lemma_all_ended_ok(v, r);
    let a = v.reclaimed(r);
    let e = model::new_ent(f, v.head(parent)->0, name, lossy, dir, false);
    lemma_filed(a, e);
    let w = v.upserted(f, parent, name, lossy, dir).0;
    assert(w == a.filed(e));
    assert forall|i: EntryIdx| #[trigger] w.has(i as int) && w.ent(i).frn == gone implies v.has(
        i as int,
    ) && !c.contains(i) by {
        assert(i != a.next_slot());
        assert(a.has(i as int));
    }
}

/// What is left after the entries of a record number ended fits together.
pub(super) proof fn lemma_dropped_ok(v: Volume, r: u64)
    requires
        v.ok(),
        v.chains.dom().contains(r),
    ensures
        v.dropped(r).ok(),
        v.dropped(r).slots.len() == v.slots.len(),
        v.dropped(r).chains == v.chains.remove(r),
        v.dropped(r).stats == v.stats,
{
    let c = v.chains[r];
    assert(v.chain_ok(r, c));
    lemma_all_ended(v, c);
    lemma_ended_free(v, c);
    let a = v.dropped(r);
    assert(a.slots == v.all_ended(c).slots);
    assert(!c.contains(v.lost_found));
    assert(a.slots[v.lost_found as int] == v.slots[v.lost_found as int]);
    assert forall|q: u64| #[trigger] a.chains.dom().contains(q) implies a.chain_ok(
        q,
        a.chains[q],
    ) by {
        let d = v.chains[q];
        assert(v.chain_ok(q, d));
        assert forall|k: int| #![trigger d[k]] 0 <= k < d.len() implies a.has(d[k] as int)
            && a.ent(d[k]) == v.ent(d[k]) by {
            assert(v.has(d[k] as int));
            assert(!c.contains(d[k]));
            assert(a.slots[d[k] as int] == v.slots[d[k] as int]);
        }
    }
}

/// What is left after a record number was reclaimed fits together.
pub(super) proof fn lemma_all_ended_ok(v: Volume, r: u64)
    requires
        v.ok(),
        v.chains.dom().contains(r),
    ensures
        v.reclaimed(r).ok(),
        v.reclaimed(r).slots.len() == v.slots.len(),
        v.reclaimed(r).chains == v.chains.remove(r),
        v.reclaimed(r).stats.stale_slots == v.stats.stale_slots + 1,
{
    lemma_dropped_ok(v, r);
    let a = v.dropped(r);
    let b = v.reclaimed(r);
    assert forall|q: u64| #[trigger] b.chains.dom().contains(q) implies b.chain_ok(
        q,
        b.chains[q],
    ) by {
        assert(a.chain_ok(q, a.chains[q]));
        let c = a.chains[q];
        assert forall|k: int| #![trigger c[k]] 0 <= k < c.len() implies b.has(c[k] as int) by {
            assert(a.has(c[k] as int));
        }
    }
}

/// The slots of ended entries are free.
pub(super) proof fn lemma_ended_free(v: Volume, c: Seq<EntryIdx>)
    requires
        v.ok(),
        c.no_duplicates(),
        forall|k: int| 0 <= k < c.len() ==> v.has(#[trigger] c[k] as int),
    ensures
        v.all_ended(c).free == v.free + c,
        v.all_ended(c).free.no_duplicates(),
        v.all_ended(c).chains == v.chains,
        v.all_ended(c).lost_found == v.lost_found,
        v.all_ended(c).stats == v.stats,
        forall|k: int|
            #![trigger v.all_ended(c).free[k]]
            0 <= k < v.all_ended(c).free.len() ==> v.all_ended(c).free[k] < v.slots.len()
                && v.all_ended(c).slots[v.all_ended(c).free[k] as int] is None,
    decreases c.len(),
{
    assert forall|k: int| 0 <= k < c.len() implies #[trigger] c[k] < v.slots.len() by {
        assert(v.has(c[k] as int));
    }
    lemma_all_ended(v, c);
    let w = v.all_ended(c);
    if c.len() == 0 {
        assert(v.free + c =~= v.free);
    } else {
        let d = c.drop_last();
        assert forall|k: int| 0 <= k < d.len() implies v.has(#[trigger] d[k] as int) by {
            assert(v.has(c[k] as int));
        }
        lemma_ended_free(v, d);
        assert(w.free =~= v.free + c);
    }
    assert forall|a: int, b: int|
        0 <= a < w.free.len() && 0 <= b < w.free.len() && a != b implies w.free[a] != w.free[b] by {
        let n = v.free.len() as int;
        if a < n && b >= n {
            assert(v.slots[v.free[a] as int] is None);
            assert(v.has(c[b - n] as int));
        } else if b < n && a >= n {
            assert(v.slots[v.free[b] as int] is None);
            assert(v.has(c[a - n] as int));
        } else if a >= n {
            assert(c[a - n] != c[b - n]);
        } else {
            assert(v.free[a] != v.free[b]);
        }
    }
    assert forall|k: int| #![trigger w.free[k]] 0 <= k < w.free.len() implies w.free[k]
        < v.slots.len() && w.slots[w.free[k] as int] is None by {
        let n = v.free.len() as int;
        if k < n {
            assert(v.free[k] < v.slots.len());
            assert(w.slots[w.free[k] as int] == (if c.contains(w.free[k]) {
                None
            } else {
                v.slots[w.free[k] as int]
            }));
        } else {
            assert(v.has(c[k - n] as int));
            assert(c.contains(c[k - n]));
        }
    }
}

/// A file that is created and deleted leaves every entry as it was.
pub proof fn law_create_and_delete_leave_no_trace(
    v: Volume,
    f: Frn,
    parent: Frn,
    name: Seq<u8>,
    lossy: bool,
    dir: bool,
    i: int,
)
    requires
        v.ok(),
        v.slots.len() + 2 < NIL,
        !v.chains.dom().contains(types::record_of(f.0)),
        v.head(parent) is Some,
    ensures
        ({
            let (w, found) = v.upserted(f, parent, name, lossy, dir).0.deleted(f);
            &&& found
            &&& w.chains == v.chains
            &&& w.has(i) == v.has(i)
            &&& v.has(i) ==> w.slots[i] == v.slots[i]
        }),
{
    let e = model::new_ent(f, v.head(parent)->0, name, lossy, dir, false);
    lemma_filed(v, e);
    lemma_new_slot(v);
    let a = v.upserted(f, parent, name, lossy, dir).0;
    assert(a == v.filed(e));
    let r = types::record_of(f.0);
    let c = a.chains[r];
    assert(c == seq![v.next_slot()]);
    assert(c[0] == v.next_slot());
    assert(a.has(c[0] as int));
    assert forall|k: int| 0 <= k < c.len() implies #[trigger] c[k] < a.slots.len() by {}
    lemma_all_ended(a, c);
    let w = a.deleted(f).0;
    assert(w.chains =~= v.chains);
    if 0 <= i < a.slots.len() {
        assert(c.contains(i as EntryIdx) <==> i == v.next_slot()) by {
            if i == v.next_slot() {
                assert(c[0] == i as EntryIdx);
            }
        }
        assert(w.slots[i] == a.all_ended(c).slots[(i as EntryIdx) as int]);
    }
}

/// A batch may be cut anywhere: applying the parts one after the other is
/// applying the whole.
pub proof fn law_batches_join(s: Applied, a: Seq<RecordModel>, b: Seq<RecordModel>)
    ensures
        model::records_applied(s, a + b) == model::records_applied(
            model::records_applied(s, a),
            b,
        ),
    decreases b.len(),
{
    if b.len() == 0 {
        assert(a + b =~= a);
    } else {
        assert((a + b).drop_last() =~= a + b.drop_last());
        law_batches_join(s, a, b.drop_last());
    }
}

/// The steps that the records of a journal ask for.
pub open spec fn told(records: Seq<RecordModel>) -> Seq<OpModel>
    decreases records.len(),
{
    if records.len() == 0 {
        Seq::empty()
    } else {
        told(records.drop_last()) + ops::steps(records.last())
    }
}

/// The file system after what a step tells of.
pub open spec fn stepped(files: Map<Frn, File>, op: OpModel) -> Map<Frn, File> {
    match op {
        OpModel::Upsert { frn, parent, name, name_lossy, is_dir } => files.insert(
            frn,
            File { parent, name, lossy: name_lossy, dir: is_dir },
        ),
        OpModel::Delete { frn } => files.remove(frn),
        _ => files,
    }
}

/// What a step tells of can happen to the file system: what it names keeps
/// the files in order, and what it deletes has no children or is gone already.
pub open spec fn can_happen(files: Map<Frn, File>, root: Frn, op: OpModel) -> bool {
    match op {
        OpModel::Upsert { .. } => files_ok(stepped(files, op), root),
        OpModel::Delete { frn } => frn != root && forall|g: Frn| #[trigger]
            files.dom().contains(g) ==> files[g].parent != frn,
        _ => true,
    }
}

/// The file system after what the steps tell of.
pub open spec fn all_stepped(files: Map<Frn, File>, todo: Seq<OpModel>) -> Map<Frn, File>
    decreases todo.len(),
{
    if todo.len() == 0 {
        files
    } else {
        stepped(all_stepped(files, todo.drop_last()), todo.last())
    }
}

/// What the steps tell of can happen, one after the other.
pub open spec fn all_can_happen(files: Map<Frn, File>, root: Frn, todo: Seq<OpModel>) -> bool
    decreases todo.len(),
{
    todo.len() == 0 || {
        &&& all_can_happen(files, root, todo.drop_last())
        &&& can_happen(all_stepped(files, todo.drop_last()), root, todo.last())
    }
}

pub(super) proof fn lemma_ops_join(s: Applied, a: Seq<OpModel>, b: Seq<OpModel>)
    ensures
        model::ops_applied(s, a + b) == model::ops_applied(model::ops_applied(s, a), b),
    decreases b.len(),
{
    if b.len() == 0 {
        assert(a + b =~= a);
    } else {
        assert((a + b).drop_last() =~= a + b.drop_last());
        lemma_ops_join(s, a, b.drop_last());
    }
}

pub(super) proof fn lemma_told(s: Applied, records: Seq<RecordModel>)
    ensures
        model::records_applied(s, records) == model::ops_applied(s, told(records)),
    decreases records.len(),
{
    if records.len() > 0 {
        lemma_told(s, records.drop_last());
        lemma_ops_join(s, told(records.drop_last()), ops::steps(records.last()));
    }
}

/// One step keeps the mirror.
proof fn lemma_step_keeps_the_mirror(s: Applied, files: Map<Frn, File>, root: Frn, op: OpModel)
    requires
        s.volume.ok(),
        s.volume.slots.len() + 2 < NIL,
        files_ok(files, root),
        mirrors(s.volume, files, root, files.dom()),
        can_happen(files, root, op),
    ensures
        ({
            let w = model::op_applied(s, op).volume;
            let now = stepped(files, op);
            &&& w.ok()
            &&& w.slots.len() <= s.volume.slots.len() + 2
            &&& files_ok(now, root)
            &&& mirrors(w, now, root, now.dom())
        }),
{
    let v = s.volume;
    let w = model::op_applied(s, op).volume;
    let now = stepped(files, op);
    match op {
        OpModel::Upsert { frn, parent, name, name_lossy, is_dir } => {
            let x = File { parent, name, lossy: name_lossy, dir: is_dir };
            law_upsert_keeps_the_mirror(v, files, root, files.dom(), frn, x);
            assert(now.dom() =~= files.dom().insert(frn));
        },
        OpModel::Delete { frn } => {
            assert forall|g: Frn| #[trigger] now.dom().contains(g) implies known(
                now,
                root,
                now[g].parent,
            ) by {
                assert(files.dom().contains(g));
                assert(known(files, root, files[g].parent));
            }
            assert forall|f: Frn, g: Frn|
                #![trigger known(now, root, f), known(now, root, g)]
                known(now, root, f) && known(now, root, g) && types::record_of(f.0)
                    == types::record_of(g.0) implies f == g by {
                assert(known(files, root, f) && known(files, root, g));
            }
            assert(now.dom() =~= files.dom().remove(frn));
            if files.dom().contains(frn) {
                law_delete_keeps_the_mirror(v, files, root, files.dom(), frn);
            } else {
                assert(now =~= files);
                assert(v.head(frn) is None) by {
                    let r = types::record_of(frn.0);
                    if v.chains.dom().contains(r) {
                        assert(lone(v, all_known(files, root), r));
                    }
                }
                law_unknown_delete_changes_nothing(v, frn);
                lemma_recounted(v, w, files, root, files.dom(), all_known(files, root));
            }
        },
        _ => {
            lemma_recounted(v, w, files, root, files.dom(), all_known(files, root));
        },
    }
}

proof fn lemma_steps_keep_the_mirror(
    s: Applied,
    files: Map<Frn, File>,
    root: Frn,
    todo: Seq<OpModel>,
)
    requires
        s.volume.ok(),
        s.volume.slots.len() + 2 * todo.len() < NIL,
        files_ok(files, root),
        mirrors(s.volume, files, root, files.dom()),
        all_can_happen(files, root, todo),
    ensures
        ({
            let w = model::ops_applied(s, todo).volume;
            let now = all_stepped(files, todo);
            &&& w.ok()
            &&& w.slots.len() <= s.volume.slots.len() + 2 * todo.len()
            &&& files_ok(now, root)
            &&& mirrors(w, now, root, now.dom())
        }),
    decreases todo.len(),
{
    if todo.len() > 0 {
        let before = todo.drop_last();
        lemma_steps_keep_the_mirror(s, files, root, before);
        lemma_step_keeps_the_mirror(
            model::ops_applied(s, before),
            all_stepped(files, before),
            root,
            todo.last(),
        );
    }
}

/// An index that mirrors a file system mirrors it still after a batch of its
/// journal, whatever was created, renamed, moved and deleted, and though
/// records come twice.
pub proof fn law_journal_keeps_the_mirror(
    v: Volume,
    files: Map<Frn, File>,
    root: Frn,
    records: Seq<RecordModel>,
)
    requires
        v.ok(),
        v.slots.len() + 2 * told(records).len() < NIL,
        files_ok(files, root),
        mirrors(v, files, root, files.dom()),
        all_can_happen(files, root, told(records)),
    ensures
        ({
            let w = model::batch_applied(v, records).volume;
            let now = all_stepped(files, told(records));
            &&& w.ok()
            &&& files_ok(now, root)
            &&& mirrors(w, now, root, now.dom())
        }),
{
    let s = model::unapplied(v);
    let now = all_stepped(files, told(records));
    lemma_told(s, records);
    lemma_steps_keep_the_mirror(s, files, root, told(records));
    lemma_recounted(
        model::records_applied(s, records).volume,
        model::batch_applied(v, records).volume,
        now,
        root,
        now.dom(),
        all_known(now, root),
    );
}

/// An index that is made from a listing of the files, in any order, and then
/// follows the journal from there, mirrors the file system as it is in the
/// end.
pub proof fn law_listing_and_journal_make_the_mirror(
    files: Map<Frn, File>,
    root: Frn,
    order: Seq<Frn>,
    records: Seq<RecordModel>,
)
    requires
        files_ok(files, root),
        2 * order.len() + 2 * told(records).len() + 2 < NIL,
        forall|k: int| 0 <= k < order.len() ==> files.dom().contains(#[trigger] order[k]),
        forall|f: Frn| #[trigger] files.dom().contains(f) ==> order.contains(f),
        all_can_happen(files, root, told(records)),
    ensures
        ({
            let listed = all_listed(model::new_volume(root), files, order);
            let now = all_stepped(files, told(records));
            mirrors(model::batch_applied(listed, records).volume, now, root, now.dom())
        }),
{
    law_listing_order_does_not_matter(files, root, order);
    law_journal_keeps_the_mirror(
        all_listed(model::new_volume(root), files, order),
        files,
        root,
        records,
    );
}

/// The step names or deletes the file.
pub open spec fn touches(op: OpModel, f: Frn) -> bool {
    match op {
        OpModel::Upsert { frn, .. } => frn == f,
        OpModel::Delete { frn } => frn == f,
        _ => false,
    }
}

/// One of the steps names or deletes the file.
pub open spec fn touched(todo: Seq<OpModel>, f: Frn) -> bool {
    exists|k: int| 0 <= k < todo.len() && touches(#[trigger] todo[k], f)
}

proof fn lemma_touched_more(todo: Seq<OpModel>, n: int, f: Frn)
    requires
        0 <= n < todo.len(),
    ensures
        touched(todo.take(n + 1), f) <==> touched(todo.take(n), f) || touches(todo[n], f),
{
    let a = todo.take(n);
    let b = todo.take(n + 1);
    if touched(b, f) {
        let k = choose|k: int| 0 <= k < b.len() && touches(#[trigger] b[k], f);
        if k < n {
            assert(a[k] == b[k]);
        }
    }
    if touched(a, f) {
        let k = choose|k: int| 0 <= k < a.len() && touches(#[trigger] a[k], f);
        assert(b[k] == a[k]);
    }
    if touches(todo[n], f) {
        assert(b[n] == todo[n]);
    }
}

/// A file that no step names or deletes stays as it is.
proof fn lemma_untouched(files: Map<Frn, File>, todo: Seq<OpModel>, f: Frn)
    requires
        !touched(todo, f),
    ensures
        all_stepped(files, todo).dom().contains(f) == files.dom().contains(f),
        files.dom().contains(f) ==> all_stepped(files, todo)[f] == files[f],
    decreases todo.len(),
{
    if todo.len() > 0 {
        let before = todo.drop_last();
        assert(!touched(before, f)) by {
            if touched(before, f) {
                let k = choose|k: int| 0 <= k < before.len() && touches(#[trigger] before[k], f);
                assert(todo[k] == before[k]);
            }
        }
        lemma_untouched(files, before, f);
        assert(!touches(todo[todo.len() - 1], f));
    }
}

/// The first steps can happen, and so can the next one after them.
proof fn lemma_prefix_can_happen(files: Map<Frn, File>, root: Frn, todo: Seq<OpModel>, n: int)
    requires
        all_can_happen(files, root, todo),
        0 <= n <= todo.len(),
    ensures
        all_can_happen(files, root, todo.take(n)),
        n < todo.len() ==> can_happen(all_stepped(files, todo.take(n)), root, todo[n]),
    decreases todo.len(),
{
    if n == todo.len() {
        assert(todo.take(n) =~= todo);
    } else {
        let before = todo.drop_last();
        if n < before.len() {
            lemma_prefix_can_happen(files, root, before, n);
            assert(before.take(n) =~= todo.take(n));
            assert(before[n] == todo[n]);
        } else {
            assert(todo.take(n) =~= before);
        }
    }
}

proof fn lemma_stepped_ok(files: Map<Frn, File>, root: Frn, op: OpModel)
    requires
        files_ok(files, root),
        can_happen(files, root, op),
    ensures
        files_ok(stepped(files, op), root),
{
    let now = stepped(files, op);
    if let OpModel::Delete { frn } = op {
        assert forall|g: Frn| #[trigger] now.dom().contains(g) implies known(
            now,
            root,
            now[g].parent,
        ) by {
            assert(files.dom().contains(g));
            assert(known(files, root, files[g].parent));
        }
        assert forall|f: Frn, g: Frn|
            #![trigger known(now, root, f), known(now, root, g)]
            known(now, root, f) && known(now, root, g) && types::record_of(f.0) == types::record_of(
                g.0,
            ) implies f == g by {
            assert(known(files, root, f) && known(files, root, g));
        }
    }
}

/// The files that are settled after the first `n` steps were taken again:
/// those that no step touches, and those that one of them touched.
spec fn settled(now: Map<Frn, File>, todo: Seq<OpModel>, n: int) -> Set<Frn> {
    Set::new(
        |f: Frn| now.dom().contains(f) && (!touched(todo, f) || touched(todo.take(n), f)),
    )
}

/// The files that may be there after the first `n` steps were taken again.
spec fn still_held(
    now: Map<Frn, File>,
    end: Map<Frn, File>,
    root: Frn,
    todo: Seq<OpModel>,
    n: int,
) -> Set<Frn> {
    Set::new(
        |f: Frn| known(now, root, f) || (known(end, root, f) && !touched(todo.take(n), f)),
    )
}

/// Fewer files are said to be shown, and more may be there.
proof fn lemma_tracks_less(
    v: Volume,
    files: Map<Frn, File>,
    root: Frn,
    seen: Set<Frn>,
    held: Set<Frn>,
    fewer: Set<Frn>,
    more: Set<Frn>,
)
    requires
        tracks(v, files, root, seen, held),
        fewer.subset_of(seen),
        held.subset_of(more),
    ensures
        tracks(v, files, root, fewer, more),
{
    assert forall|f: Frn| #[trigger] fewer.contains(f) implies shown(v, files, f) by {
        assert(seen.contains(f));
    }
    assert forall|r: u64| #[trigger] v.chains.dom().contains(r) implies lone(v, more, r) by {
        assert(lone(v, held, r));
    }
}

/// While steps that were taken before are taken again, the index comes to show
/// the files as they were after the same steps the first time.
#[verifier::rlimit(30)]
proof fn lemma_replay(
    s: Applied,
    files: Map<Frn, File>,
    root: Frn,
    todo: Seq<OpModel>,
    n: int,
)
    requires
        0 <= n <= todo.len(),
        s.volume.ok(),
        s.volume.slots.len() + 2 * n < NIL,
        files_ok(files, root),
        all_can_happen(files, root, todo),
        mirrors(
            s.volume,
            all_stepped(files, todo),
            root,
            all_stepped(files, todo).dom(),
        ),
    ensures
        ({
            let w = model::ops_applied(s, todo.take(n)).volume;
            let now = all_stepped(files, todo.take(n));
            let end = all_stepped(files, todo);
            &&& w.ok()
            &&& w.slots.len() <= s.volume.slots.len() + 2 * n
            &&& files_ok(now, root)
            &&& tracks(w, now, root, settled(now, todo, n), still_held(now, end, root, todo, n))
        }),
    decreases n,
{
    let end = all_stepped(files, todo);
    if n == 0 {
        let v = s.volume;
        assert(todo.take(0) =~= Seq::empty());
        let fewer = settled(files, todo, 0);
        assert forall|f: Frn| #[trigger] fewer.contains(f) implies shown(v, files, f) by {
            assert(!touched(todo, f));
            lemma_untouched(files, todo, f);
            assert(end.dom().contains(f));
            assert(shown(v, end, f));
        }
        let held = still_held(files, end, root, todo, 0);
        assert forall|r: u64| #[trigger] v.chains.dom().contains(r) implies lone(v, held, r) by {
            assert(lone(v, all_known(end, root), r));
        }
    } else {
        let m = n - 1;
        let before = todo.take(m);
        lemma_replay(s, files, root, todo, m);
        lemma_prefix_can_happen(files, root, todo, m);
        assert(todo.take(n).drop_last() =~= before);
        assert(todo.take(n).last() == todo[m]);
        let op = todo[m];
        let a = model::ops_applied(s, before);
        let was = all_stepped(files, before);
        let now = all_stepped(files, todo.take(n));
        assert(now == stepped(was, op));
        lemma_stepped_ok(was, root, op);
        let v = a.volume;
        let w = model::op_applied(a, op).volume;
        let seen = settled(was, todo, m);
        let held = still_held(was, end, root, todo, m);
        let seen2 = settled(now, todo, n);
        let held2 = still_held(now, end, root, todo, n);
        assert forall|f: Frn| touched(todo.take(n), f) <==> #[trigger] touched(before, f) || touches(
            op,
            f,
        ) by {
            lemma_touched_more(todo, m, f);
        }
        match op {
            OpModel::Upsert { frn, parent, name, name_lossy, is_dir } => {
                let x = File { parent, name, lossy: name_lossy, dir: is_dir };
                lemma_upsert_tracks(v, was, root, seen, held, frn, x);
                let more = held.insert(parent).insert(frn);
                assert(now.dom().contains(frn));
                assert(known(now, root, now[frn].parent));
                assert(more.subset_of(held2)) by {
                    assert forall|f: Frn| more.contains(f) implies held2.contains(f) by {
                        lemma_touched_more(todo, m, f);
                    }
                }
                assert(seen2.subset_of(seen.insert(frn))) by {
                    assert forall|f: Frn| seen2.contains(f) implies seen.insert(frn).contains(f) by {
                        lemma_touched_more(todo, m, f);
                    }
                }
                lemma_tracks_less(w, now, root, seen.insert(frn), more, seen2, held2);
            },
            OpModel::Delete { frn } => {
                lemma_delete_tracks(v, was, root, seen, held, frn);
                let b = v.deleted(frn).0;
                let fewer = seen.remove(frn);
                let rest = held.remove(frn);
                assert(rest.subset_of(held2)) by {
                    assert forall|f: Frn| rest.contains(f) implies held2.contains(f) by {
                        lemma_touched_more(todo, m, f);
                    }
                }
                assert(seen2.subset_of(fewer)) by {
                    assert forall|f: Frn| seen2.contains(f) implies fewer.contains(f) by {
                        lemma_touched_more(todo, m, f);
                    }
                }
                lemma_tracks_less(b, now, root, fewer, rest, seen2, held2);
                lemma_recounted(b, w, now, root, seen2, held2);
            },
            _ => {
                assert(seen2 =~= seen) by {
                    assert forall|f: Frn| seen2.contains(f) == seen.contains(f) by {
                        lemma_touched_more(todo, m, f);
                    }
                }
                assert(held2 =~= held) by {
                    assert forall|f: Frn| held2.contains(f) == held.contains(f) by {
                        lemma_touched_more(todo, m, f);
                    }
                }
                lemma_recounted(v, w, now, root, seen, held);
            },
        }
    }
}

proof fn lemma_ended_generation(v: Volume, c: Seq<EntryIdx>)
    ensures
        v.all_ended(c).generation == v.generation,
    decreases c.len(),
{
    if c.len() > 0 {
        lemma_ended_generation(v, c.drop_last());
    }
}

proof fn lemma_reclaimed_generation(v: Volume, r: u64)
    ensures
        v.dropped(r).generation == v.generation,
        v.reclaimed(r).generation == v.generation,
{
    lemma_ended_generation(v, v.chains[r]);
}

/// Steps do not count as batches.
proof fn lemma_generation(s: Applied, todo: Seq<OpModel>)
    ensures
        model::ops_applied(s, todo).volume.generation == s.volume.generation,
    decreases todo.len(),
{
    if todo.len() > 0 {
        lemma_generation(s, todo.drop_last());
        let v = model::ops_applied(s, todo.drop_last()).volume;
        match todo.last() {
            OpModel::Upsert { frn, parent, .. } => {
                lemma_reclaimed_generation(v, types::record_of(parent.0));
                lemma_reclaimed_generation(v.resolved(parent).0, types::record_of(frn.0));
            },
            OpModel::Delete { frn } => {
                lemma_reclaimed_generation(v, types::record_of(frn.0));
            },
            _ => {},
        }
    }
}

/// Every batch counts once, whatever it holds.
pub proof fn law_each_batch_counts_once(v: Volume, records: Seq<RecordModel>)
    ensures
        model::batch_applied(v, records).volume.generation == v.generation + 1,
{
    lemma_told(model::unapplied(v), records);
    lemma_generation(model::unapplied(v), told(records));
}

/// An index that mirrors a file system mirrors it as it is after a batch of
/// the journal, whether the batch is applied once or twice.
pub proof fn law_batch_twice_keeps_the_mirror(
    v: Volume,
    files: Map<Frn, File>,
    root: Frn,
    records: Seq<RecordModel>,
)
    requires
        v.ok(),
        v.slots.len() + 4 * told(records).len() < NIL,
        files_ok(files, root),
        mirrors(v, files, root, files.dom()),
        all_can_happen(files, root, told(records)),
    ensures
        ({
            let once = model::batch_applied(v, records).volume;
            let twice = model::batch_applied(once, records).volume;
            let now = all_stepped(files, told(records));
            &&& once.ok()
            &&& twice.ok()
            &&& files_ok(now, root)
            &&& mirrors(once, now, root, now.dom())
            &&& mirrors(twice, now, root, now.dom())
            &&& once.generation == v.generation + 1
            &&& twice.generation == v.generation + 2
        }),
{
    let t = told(records);
    let once = model::batch_applied(v, records).volume;
    let now = all_stepped(files, t);
    law_journal_keeps_the_mirror(v, files, root, records);
    law_each_batch_counts_once(v, records);
    law_each_batch_counts_once(once, records);
    let s = model::unapplied(v);
    lemma_told(s, records);
    lemma_steps_keep_the_mirror(s, files, root, t);
    assert(once.slots.len() <= v.slots.len() + 2 * t.len());
    let s2 = model::unapplied(once);
    lemma_replay(s2, files, root, t, t.len() as int);
    assert(t.take(t.len() as int) =~= t);
    lemma_told(s2, records);
    let w = model::ops_applied(s2, t).volume;
    lemma_tracks_less(
        w,
        now,
        root,
        settled(now, t, t.len() as int),
        still_held(now, now, root, t, t.len() as int),
        now.dom(),
        all_known(now, root),
    );
    lemma_recounted(
        w,
        model::batch_applied(once, records).volume,
        now,
        root,
        now.dom(),
        all_known(now, root),
    );
}

/// What one more entry, in no chain, does to the others.
pub(super) proof fn lemma_created(v: Volume, x: Ent)
    requires
        v.ok(),
        v.slots.len() + 1 < NIL,
    ensures
        v.created(x).ok(),
        v.created(x).ent(v.next_slot()) == x,
        v.created(x).slots.len() <= v.slots.len() + 1,
        forall|i: int| #[trigger] v.created(x).has(i) <==> v.has(i) || i == v.next_slot(),
        forall|i: int| #[trigger] v.has(i) ==> v.created(x).slots[i] == v.slots[i],
        v.next_slot() != v.lost_found,
        !v.has(v.next_slot() as int),
        forall|i: EntryIdx|
            i != v.next_slot() ==> #[trigger] v.created(x).detached.contains(i)
                == v.detached.contains(i),
        x.parent == NIL || v.has(x.parent as int) ==> !v.created(x).detached.contains(
            v.next_slot(),
        ),
{
    lemma_new_slot(v);
    let w = v.created(x);
    assert forall|j: int| #[trigger] v.has(j) implies w.slots[j] == v.slots[j] by {}
    assert(w.free.no_duplicates());
    assert forall|k: int| #![trigger w.free[k]] 0 <= k < w.free.len() implies w.free[k]
        < w.slots.len() && w.slots[w.free[k] as int] is None by {
        assert(w.free[k] == v.free[k]);
        if v.free.len() > 0 {
            assert(v.free[k] != v.free[v.free.len() - 1]);
        }
    }
    assert forall|q: u64| #[trigger] w.chains.dom().contains(q) implies w.chain_ok(
        q,
        w.chains[q],
    ) by {
        let c = v.chains[q];
        assert(v.chain_ok(q, c));
        assert forall|k: int| #![trigger c[k]] 0 <= k < c.len() implies w.has(c[k] as int)
            && w.ent(c[k]) == v.ent(c[k]) by {
            assert(v.has(c[k] as int));
        }
    }
}

/// The link that a target takes is one.
pub(super) proof fn lemma_spare(
    v: Volume,
    current: Seq<EntryIdx>,
    used: Seq<bool>,
    t: Target,
    k: int,
)
    requires
        0 <= k,
    ensures
        ({
            let pos = model::spare_link(v, current, used, t, k);
            pos == -1 || (k <= pos < current.len() && !used[pos] && v.is_link(
                current[pos],
                t.parent,
                t.name,
            ))
        }),
    decreases current.len() - k,
{
    if k < current.len() {
        lemma_spare(v, current, used, t, k + 1);
    }
}

/// Each target has its link, and no link is taken twice.
spec fn linked_so_far(
    s: model::Relink,
    v: Volume,
    current: Seq<EntryIdx>,
    frn: Frn,
    targets: Seq<Target>,
) -> bool {
    &&& s.volume.ok()
    &&& s.volume.slots.len() <= v.slots.len() + targets.len()
    &&& s.volume.chains == v.chains
    &&& s.kept.len() == targets.len()
    &&& s.used.len() == current.len()
    &&& forall|i: int| #[trigger]
        v.has(i) ==> s.volume.has(i) && s.volume.slots[i] == v.slots[i]
    &&& forall|k: int|
        #![trigger s.kept[k]]
        0 <= k < s.kept.len() ==> s.volume.has(s.kept[k] as int) && s.volume.is_link(
            s.kept[k],
            targets[k].parent,
            targets[k].name,
        ) && s.volume.ent(s.kept[k]).frn == frn
    &&& forall|j: int|
        #![trigger current[j]]
        0 <= j < current.len() && !s.used[j] ==> !s.kept.contains(current[j])
}

proof fn lemma_linked_so_far(
    s0: model::Relink,
    current: Seq<EntryIdx>,
    frn: Frn,
    dir: bool,
    targets: Seq<Target>,
)
    requires
        s0.volume.ok(),
        s0.volume.slots.len() + targets.len() < NIL,
        s0.kept.len() == 0,
        s0.used.len() == current.len(),
        current.no_duplicates(),
        forall|j: int|
            #![trigger targets[j]]
            0 <= j < targets.len() ==> targets[j].parent == NIL || s0.volume.has(
                targets[j].parent as int,
            ),
        forall|j: int|
            #![trigger current[j]]
            0 <= j < current.len() ==> s0.volume.has(current[j] as int) && s0.volume.ent(
                current[j],
            ).frn == frn,
    ensures
        linked_so_far(
            model::relink_all(s0, current, frn, dir, targets),
            s0.volume,
            current,
            frn,
            targets,
        ),
    decreases targets.len(),
{
    let s = model::relink_all(s0, current, frn, dir, targets);
    if targets.len() > 0 {
        let before = targets.drop_last();
        assert forall|j: int| #![trigger before[j]] 0 <= j < before.len() implies before[j].parent
            == NIL || s0.volume.has(before[j].parent as int) by {
            assert(before[j] == targets[j]);
        }
        lemma_linked_so_far(s0, current, frn, dir, before);
        assert(targets[targets.len() - 1] == targets.last());
        let p = model::relink_all(s0, current, frn, dir, before);
        let t = targets.last();
        lemma_spare(p.volume, current, p.used, t, 0);
        let pos = model::spare_link(p.volume, current, p.used, t, 0);
        if pos >= 0 {
            assert(s0.volume.has(current[pos] as int));
            assert forall|k: int| #![trigger s.kept[k]] 0 <= k < s.kept.len() implies s.volume.has(
                s.kept[k] as int,
            ) && s.volume.is_link(s.kept[k], targets[k].parent, targets[k].name) && s.volume.ent(
                s.kept[k],
            ).frn == frn by {
                if k < p.kept.len() {
                    assert(s.kept[k] == p.kept[k]);
                    assert(before[k] == targets[k]);
                }
            }
            assert forall|j: int|
                #![trigger current[j]]
                0 <= j < current.len() && !s.used[j] implies !s.kept.contains(current[j]) by {
                assert(!p.used[j]);
                assert(current[j] != current[pos]);
                if s.kept.contains(current[j]) {
                    let k = choose|k: int| 0 <= k < s.kept.len() && s.kept[k] == current[j];
                    assert(p.kept[k] == current[j]);
                }
            }
        } else {
            let x = model::new_ent(frn, t.parent, t.name, t.lossy, dir, false);
            lemma_created(p.volume, x);
            let n = p.volume.next_slot();
            lemma_recounted_ok(p.volume.created(x), s.volume);
            assert forall|i: int| #[trigger] s0.volume.has(i) implies s.volume.has(i)
                && s.volume.slots[i] == s0.volume.slots[i] by {
                assert(p.volume.has(i));
            }
            assert forall|k: int| #![trigger s.kept[k]] 0 <= k < s.kept.len() implies s.volume.has(
                s.kept[k] as int,
            ) && s.volume.is_link(s.kept[k], targets[k].parent, targets[k].name) && s.volume.ent(
                s.kept[k],
            ).frn == frn by {
                if k < p.kept.len() {
                    assert(s.kept[k] == p.kept[k]);
                    assert(before[k] == targets[k]);
                    assert(p.volume.has(p.kept[k] as int));
                } else {
                    assert(s.volume.has(n as int) == p.volume.created(x).has(n as int));
                }
            }
            assert forall|j: int|
                #![trigger current[j]]
                0 <= j < current.len() && !s.used[j] implies !s.kept.contains(current[j]) by {
                assert(s0.volume.has(current[j] as int));
                assert(p.volume.has(current[j] as int));
                if s.kept.contains(current[j]) {
                    let k = choose|k: int| 0 <= k < s.kept.len() && s.kept[k] == current[j];
                    if k < p.kept.len() {
                        assert(p.kept[k] == current[j]);
                    }
                }
            }
        }
    } else {
        assert forall|j: int|
            #![trigger current[j]]
            0 <= j < current.len() && !s.used[j] implies !s.kept.contains(current[j]) by {}
    }
}

proof fn lemma_unused(v: Volume, current: Seq<EntryIdx>, used: Seq<bool>, k: int, i: EntryIdx)
    requires
        0 <= k <= current.len(),
        forall|j: int| 0 <= j < current.len() ==> #[trigger] current[j] < v.slots.len(),
        forall|j: int|
            #![trigger current[j]]
            0 <= j < k && !used[j] ==> current[j] != i,
    ensures
        model::unused_ended(v, current, used, k).slots.len() == v.slots.len(),
        i < v.slots.len() ==> model::unused_ended(v, current, used, k).slots[i as int]
            == v.slots[i as int],
        i < v.slots.len() && !v.detached.contains(i) && !current.contains(v.ent(i).parent)
            ==> !model::unused_ended(v, current, used, k).detached.contains(i),
    decreases k,
{
    if k > 0 {
        lemma_unused(v, current, used, k - 1, i);
        assert(current[k - 1] < v.slots.len());
        assert(current.contains(current[k - 1]));
    }
}

/// After its links were read, a file has exactly these links, in this order,
/// where their directories are there. Another file that had the record number
/// before is gone.
pub proof fn law_reconcile_gives_the_links(
    v: Volume,
    frn: Frn,
    dir: bool,
    targets: Seq<Target>,
    k: int,
)
    requires
        v.ok(),
        0 < targets.len(),
        v.slots.len() + targets.len() < NIL,
        forall|j: int|
            0 <= j < v.links(frn).len() ==> v.ent(#[trigger] v.links(frn)[j]).frn == frn,
        forall|j: int|
            #![trigger targets[j]]
            0 <= j < targets.len() ==> targets[j].parent == NIL || v.claimed(frn).has(
                targets[j].parent as int,
            ) && !v.links(frn).contains(targets[j].parent),
        0 <= k < targets.len(),
    ensures
        ({
            let w = v.relinked(frn, dir, targets);
            &&& w.links(frn).len() == targets.len()
            &&& w.has(w.links(frn)[k] as int)
            &&& w.is_link(w.links(frn)[k], targets[k].parent, targets[k].name)
        }),
{
    let r = types::record_of(frn.0);
    let u = v.claimed(frn);
    if v.head(frn) is None && v.chains.dom().contains(r) {
        lemma_all_ended_ok(v, r);
    }
    let current = u.links(frn);
    assert(current == v.links(frn));
    if current.len() > 0 {
        assert(u.chain_ok(r, u.chains[r]));
    }
    assert(current.no_duplicates());
    let s0 = model::Relink {
        volume: u,
        kept: Seq::empty(),
        used: Seq::new(current.len(), |i: int| false),
    };
    assert forall|j: int| #![trigger current[j]] 0 <= j < current.len() implies u.has(
        current[j] as int,
    ) && u.ent(current[j]).frn == frn by {
        assert(v.links(frn)[j] == current[j]);
        assert(u.has(u.chains[r][j] as int));
    }
    lemma_linked_so_far(s0, current, frn, dir, targets);
    let s = model::relink_all(s0, current, frn, dir, targets);
    let w = v.relinked(frn, dir, targets);
    assert forall|j: int| 0 <= j < current.len() implies #[trigger] current[j]
        < s.volume.slots.len() by {
        assert(u.has(current[j] as int));
        assert(s.volume.has(current[j] as int));
    }
    assert forall|m: int| 0 <= m < s.kept.len() implies w.has((#[trigger] s.kept[m]) as int)
        && w.slots[s.kept[m] as int] == s.volume.slots[s.kept[m] as int] && !w.detached.contains(
        s.kept[m],
    ) by {
        assert(s.kept.contains(s.kept[m]));
        assert(targets[m].parent == s.volume.ent(s.kept[m]).parent);
        assert(!current.contains(NIL)) by {
            if current.contains(NIL) {
                let j = choose|j: int| 0 <= j < current.len() && current[j] == NIL;
                assert(u.has(current[j] as int));
            }
        }
        lemma_unused(s.volume, current, s.used, current.len() as int, s.kept[m]);
    }
    assert(w.chains.dom().contains(r) && w.chains[r] == s.kept);
    assert(s.kept[0] == w.chains[r][0]);
    assert(w.ent(s.kept[0]).frn == frn);
    assert(w.links(frn) == s.kept);
    assert(s.kept[k] == w.links(frn)[k]);
}

/// A file that has several links is found under each of them: every name that
/// was read from the volume is a link of the file. Nothing ends, and no entry
/// loses its parent or name.
pub proof fn law_enrich_links_every_name(
    v: Volume,
    frn: Frn,
    names: Seq<model::Named>,
    size: Option<u64>,
    mtime: Option<i64>,
)
    requires
        v.ok(),
        v.slots.len() + names.len() < NIL,
        v.head(frn) is Some,
        forall|k: int|
            0 <= k < names.len() ==> v.head((#[trigger] names[k]).parent_frn) is Some,
    ensures
        ({
            let w = v.enriched(frn, false, names, size, mtime);
            &&& forall|k: int|
                #![trigger names[k]]
                0 <= k < names.len() ==> w.has_link(
                    w.links(frn),
                    v.head(names[k].parent_frn)->0,
                    names[k].name,
                )
            &&& forall|i: EntryIdx| #[trigger]
                v.has(i as int) ==> w.has(i as int) && w.ent(i).parent == v.ent(i).parent && w.ent(
                    i,
                ).name == v.ent(i).name && w.ent(i).frn == v.ent(i).frn
        }),
{
    lemma_joined(v, frn, names);
    let a = v.all_joined(frn, names);
    let w = v.enriched(frn, false, names, size, mtime);
    assert(w == a.measured(a.links(frn), size, mtime));
    let c = a.links(frn);
    let r = types::record_of(frn.0);
    assert(a.chain_ok(r, c));
    assert forall|i: EntryIdx| #[trigger] a.has(i as int) implies w.has(i as int) && w.ent(i).parent
        == a.ent(i).parent && w.ent(i).name == a.ent(i).name && w.ent(i).frn == a.ent(i).frn by {}
    assert(a.has(c[0] as int));
    assert(w.head(frn) == a.head(frn));
    assert(w.links(frn) == c);
    assert forall|k: int| #![trigger names[k]] 0 <= k < names.len() implies w.has_link(
        w.links(frn),
        v.head(names[k].parent_frn)->0,
        names[k].name,
    ) by {
        let p = v.head(names[k].parent_frn)->0;
        assert(a.has_link(c, p, names[k].name));
        let j = choose|j: int| 0 <= j < c.len() && a.is_link(#[trigger] c[j], p, names[k].name);
        assert(a.has(c[j] as int));
        assert(w.is_link(c[j], p, names[k].name));
    }
}

proof fn lemma_joined(v: Volume, frn: Frn, names: Seq<model::Named>)
    requires
        v.ok(),
        v.slots.len() + names.len() < NIL,
        v.head(frn) is Some,
        forall|k: int|
            0 <= k < names.len() ==> v.head((#[trigger] names[k]).parent_frn) is Some,
    ensures
        ({
            let w = v.all_joined(frn, names);
            &&& w.ok()
            &&& w.slots.len() <= v.slots.len() + names.len()
            &&& w.head(frn) == v.head(frn)
            &&& forall|f: Frn| #[trigger] v.head(f) is Some ==> w.head(f) == v.head(f)
            &&& forall|i: EntryIdx| #[trigger]
                v.has(i as int) ==> w.has(i as int) && w.slots[i as int] == v.slots[i as int]
            &&& forall|k: int|
                #![trigger names[k]]
                0 <= k < names.len() ==> w.has_link(
                    w.links(frn),
                    v.head(names[k].parent_frn)->0,
                    names[k].name,
                )
        }),
    decreases names.len(),
{
    if names.len() > 0 {
        let before = names.drop_last();
        assert forall|k: int| 0 <= k < before.len() implies v.head(
            (#[trigger] before[k]).parent_frn,
        ) is Some by {
            assert(v.head(names[k].parent_frn) is Some);
        }
        lemma_joined(v, frn, before);
        let a = v.all_joined(frn, before);
        let n = names.last();
        assert(v.head(names[names.len() - 1].parent_frn) is Some);
        let p = v.head(n.parent_frn)->0;
        assert(a.resolved(n.parent_frn) == (a, p));
        let w = v.all_joined(frn, names);
        let r = types::record_of(frn.0);
        let c = a.links(frn);
        assert(a.chain_ok(r, c));
        if a.has_link(c, p, n.name) {
            assert(w == a);
            assert forall|k: int| #![trigger names[k]] 0 <= k < names.len() implies w.has_link(
                w.links(frn),
                v.head(names[k].parent_frn)->0,
                names[k].name,
            ) by {
                if k < before.len() {
                    assert(before[k] == names[k]);
                }
            }
        } else {
            let x = model::new_ent(frn, p, n.name, n.lossy, false, false);
            lemma_created(a, x);
            let i = a.next_slot();
            assert(w == a.linked(frn, p, n.name, n.lossy));
            let d = c.push(i);
            assert(w.chains[r] == d);
            assert forall|j: int| #[trigger] a.has(j) implies w.has(j) && w.slots[j]
                == a.slots[j] by {
                assert(a.created(x).has(j));
            }
            assert(w.has(i as int)) by {
                assert(a.created(x).has(i as int));
            }
            assert forall|q: u64| #[trigger] w.chains.dom().contains(q) implies w.chain_ok(
                q,
                w.chains[q],
            ) by {
                if q == r {
                    assert forall|k: int| #![trigger d[k]] 0 <= k < d.len() implies w.has(
                        d[k] as int,
                    ) && d[k] != w.lost_found && types::record_of(w.ent(d[k]).frn.0) == r by {
                        if k < c.len() {
                            assert(d[k] == c[k]);
                            assert(a.has(c[k] as int));
                        }
                    }
                    assert(d.no_duplicates()) by {
                        assert forall|a1: int, b1: int|
                            0 <= a1 < d.len() && 0 <= b1 < d.len() && a1 != b1 implies d[a1]
                            != d[b1] by {
                            if a1 < c.len() {
                                assert(a.has(c[a1] as int));
                            }
                            if b1 < c.len() {
                                assert(a.has(c[b1] as int));
                            }
                        }
                    }
                } else {
                    let g = a.chains[q];
                    assert(a.chain_ok(q, g));
                    assert forall|k: int| #![trigger g[k]] 0 <= k < g.len() implies w.has(
                        g[k] as int,
                    ) && w.ent(g[k]) == a.ent(g[k]) by {
                        assert(a.has(g[k] as int));
                    }
                }
            }
            assert forall|k: int| #![trigger w.free[k]] 0 <= k < w.free.len() implies w.free[k]
                < w.slots.len() && w.slots[w.free[k] as int] is None by {
                assert(a.created(x).free[k] == w.free[k]);
            }
            assert forall|f: Frn| #[trigger] v.head(f) is Some implies w.head(f) == v.head(f) by {
                assert(a.head(f) == v.head(f));
                let q = types::record_of(f.0);
                assert(a.chain_ok(q, a.chains[q]));
                assert(a.has(a.chains[q][0] as int));
                if q == r {
                    assert(d[0] == c[0]);
                }
            }
            assert(w.links(frn) == d);
            assert forall|k: int| #![trigger names[k]] 0 <= k < names.len() implies w.has_link(
                w.links(frn),
                v.head(names[k].parent_frn)->0,
                names[k].name,
            ) by {
                if k < before.len() {
                    assert(before[k] == names[k]);
                    let q = v.head(names[k].parent_frn)->0;
                    assert(a.has_link(c, q, names[k].name));
                    let j = choose|j: int|
                        0 <= j < c.len() && a.is_link(#[trigger] c[j], q, names[k].name);
                    assert(a.has(c[j] as int));
                    assert(w.is_link(d[j], q, names[k].name));
                } else {
                    assert(w.is_link(d[c.len() as int], p, n.name));
                }
            }
            assert forall|j: EntryIdx| #[trigger] v.has(j as int) implies w.has(j as int)
                && w.slots[j as int] == v.slots[j as int] by {
                assert(a.has(j as int));
            }
        }
    }
}

} // verus!
