//! What holds of all paths that an index tells.

use super::read;
use super::read::{
    below_root, climb, entries_before, file_path, synthetic, PathStatus, MAX_PATH_HOPS,
};
use super::VolumeIndex;
use crate::index::graph;
use crate::index::laws;
use crate::index::laws::File;
use crate::index::model;
use crate::index::model::Volume;
use crate::index::replay;
use crate::index::scene;
use crate::index::scene::Spot;
use crate::types;
use crate::types::{EntryIdx, Frn, NIL};
use crate::usn::record::RecordModel;
use crate::wtf8;
use vstd::prelude::*;

verus! {

/// Every file is below the root, and a path to it can be followed.
pub open spec fn is_tree(files: Map<Frn, File>, root: Frn) -> bool {
    forall|f: Frn| #[trigger]
        files.dom().contains(f) ==> below_root(files, root, f, MAX_PATH_HOPS - 1)
}

/// The text is the path of a file.
pub open spec fn tells(files: Map<Frn, File>, root: Frn, text: Seq<char>, f: Frn) -> bool {
    files.dom().contains(f) && text == wtf8::shown_text(
        file_path(files, root, f, MAX_PATH_HOPS - 1),
    )
}

/// The text is the path of one of the files.
pub open spec fn is_path(files: Map<Frn, File>, root: Frn, text: Seq<char>) -> bool {
    exists|f: Frn| tells(files, root, text, f)
}

/// The entries among the first `n` slots are listed each once.
proof fn lemma_entries_count(v: Volume, n: int)
    requires
        0 <= n <= v.slots.len(),
    ensures
        entries_before(v, n).len() == Set::new(|i: int| 0 <= i < n && v.has(i)).len(),
        Set::new(|i: int| 0 <= i < n && v.has(i)).finite(),
    decreases n,
{
    let s = Set::new(|i: int| 0 <= i < n && v.has(i));
    if n == 0 {
        assert(s =~= Set::empty());
    } else {
        lemma_entries_count(v, n - 1);
        let t = Set::new(|i: int| 0 <= i < n - 1 && v.has(i));
        if v.has(n - 1) {
            assert(s =~= t.insert(n - 1));
        } else {
            assert(s =~= t);
        }
    }
}

impl VolumeIndex {
    /// The paths that the index tells.
    pub open spec fn told_paths(&self) -> Seq<Seq<char>> {
        self.real_paths(entries_before(self.model(), self.model().slots.len() as int))
    }

    /// How many entries there are.
    pub open spec fn live_count(&self) -> int {
        self.model().slots.len() - self.model().free.len()
    }

    proof fn lemma_told(&self, list: Seq<EntryIdx>, text: Seq<char>)
        ensures
            self.real_paths(list).contains(text) <==> exists|k: int|
                0 <= k < list.len() && self.told_as(#[trigger] list[k], text),
        decreases list.len(),
    {
        let all = self.real_paths(list);
        if list.len() > 0 {
            let d = list.drop_last();
            let rest = self.real_paths(d);
            let i = list.last();
            self.lemma_told(d, text);
            if all.contains(text) {
                let n = choose|n: int| 0 <= n < all.len() && all[n] == text;
                if n < rest.len() {
                    assert(rest[n] == text);
                    let k = choose|k: int| 0 <= k < d.len() && self.told_as(#[trigger] d[k], text);
                    assert(list[k] == d[k]);
                } else {
                    assert(self.told_as(list[list.len() - 1], text));
                }
            }
            if exists|k: int| 0 <= k < list.len() && self.told_as(#[trigger] list[k], text) {
                let k = choose|k: int| 0 <= k < list.len() && self.told_as(#[trigger] list[k], text);
                if k < d.len() {
                    assert(d[k] == list[k]);
                    let n = choose|n: int| 0 <= n < rest.len() && rest[n] == text;
                    assert(all[n] == text);
                } else {
                    assert(all[rest.len() as int] == text);
                }
            }
        }
    }

    /// The entry is told by this path.
    spec fn told_as(&self, i: EntryIdx, text: Seq<char>) -> bool {
        &&& !synthetic(self.model(), i)
        &&& self.path_status(i) == PathStatus::Whole
        &&& text == wtf8::shown_text(self.with_path(Seq::empty(), self.ancestry(i)))
    }

    /// An entry of a whole mirror is that of a file, and is told by its path.
    proof fn lemma_real_entry(&self, files: Map<Frn, File>, root: Frn, i: EntryIdx)
        requires
            self.wf(),
            laws::files_ok(files, root),
            laws::mirrors(self.model(), files, root, files.dom()),
            is_tree(files, root),
            self.model().has(i as int),
            i != self.model().root,
            i != self.model().lost_found,
        ensures
            ({
                let f = self.model().ent(i).frn;
                &&& files.dom().contains(f)
                &&& self.model().head(f) == Some(i)
                &&& !synthetic(self.model(), i)
                &&& self.told_as(
                    i,
                    wtf8::shown_text(file_path(files, root, f, MAX_PATH_HOPS - 1)),
                )
            }),
    {
        self.lemma_ok();
        laws::law_a_whole_mirror_has_no_placeholder(self.model(), files, root, i);
        let f = self.model().ent(i).frn;
        self.law_paths_are_those_of_the_mirror(files, root, f, MAX_PATH_HOPS - 1);
    }

    /// The entry of a file in a whole mirror.
    proof fn lemma_file_entry(&self, files: Map<Frn, File>, root: Frn, f: Frn)
        requires
            self.wf(),
            laws::files_ok(files, root),
            laws::mirrors(self.model(), files, root, files.dom()),
            files.dom().contains(f),
        ensures
            ({
                let i = self.model().head(f)->0;
                &&& self.model().head(f) is Some
                &&& self.model().has(i as int)
                &&& self.model().ent(i).frn == f
                &&& i != self.model().root
                &&& i != self.model().lost_found
            }),
    {
        self.lemma_ok();
        let v = self.model();
        assert(laws::shown(v, files, f));
        let r = types::record_of(f.0);
        assert(v.chain_ok(r, v.chains[r]));
        assert(v.has(v.chains[r][0] as int));
    }

    /// An index that mirrors a file system tells the paths of its files, and no
    /// others.
    pub proof fn law_paths_told_are_those_of_the_files(
        &self,
        files: Map<Frn, File>,
        root: Frn,
        text: Seq<char>,
    )
        requires
            self.wf(),
            laws::files_ok(files, root),
            laws::mirrors(self.model(), files, root, files.dom()),
            is_tree(files, root),
        ensures
            self.told_paths().contains(text) <==> is_path(files, root, text),
    {
        let v = self.model();
        let list = entries_before(v, v.slots.len() as int);
        self.lemma_entry(v.root);
        read::lemma_entries_before(v, v.slots.len() as int);
        self.lemma_told(list, text);
        if self.told_paths().contains(text) {
            let k = choose|k: int| 0 <= k < list.len() && self.told_as(#[trigger] list[k], text);
            let i = list[k];
            assert(v.has(i as int));
            self.lemma_real_entry(files, root, i);
            assert(tells(files, root, text, v.ent(i).frn));
        }
        if is_path(files, root, text) {
            let f = choose|f: Frn| tells(files, root, text, f);
            self.lemma_file_entry(files, root, f);
            let i = v.head(f)->0;
            self.lemma_real_entry(files, root, i);
            assert(v.has(i as int));
            assert(list.contains(i));
            let k = choose|k: int| 0 <= k < list.len() && list[k] == i;
            assert(self.told_as(list[k], text));
        }
    }

    /// Each real entry of a whole mirror is told once.
    proof fn lemma_told_count(&self, files: Map<Frn, File>, root: Frn, n: int)
        requires
            self.wf(),
            laws::files_ok(files, root),
            laws::mirrors(self.model(), files, root, files.dom()),
            is_tree(files, root),
            0 <= n <= self.model().slots.len(),
        ensures
            self.real_paths(entries_before(self.model(), n)).len() == entries_before(
                self.model(),
                n,
            ).len() - (if self.model().root < n {
                1int
            } else {
                0
            }) - (if self.model().lost_found < n {
                1int
            } else {
                0
            }),
        decreases n,
    {
        let v = self.model();
        self.lemma_entry(v.root);
        if n > 0 {
            self.lemma_told_count(files, root, n - 1);
            self.lemma_ok();
            let i = (n - 1) as EntryIdx;
            let all = entries_before(v, n);
            let r = types::record_of(root.0);
            assert(v.chain_ok(r, v.chains[r]));
            assert(v.has(v.root as int));
            assert(v.root != v.lost_found);
            if v.has(n - 1) {
                assert(all.drop_last() =~= entries_before(v, n - 1));
                assert(all.last() == i);
                if i != v.root && i != v.lost_found {
                    self.lemma_real_entry(files, root, i);
                }
            }
        }
    }

    /// An index that mirrors a file system has an entry for each file and the
    /// two topmost directories, and tells one path for each file.
    pub proof fn law_every_file_counts_once(&self, files: Map<Frn, File>, root: Frn)
        requires
            self.wf(),
            laws::files_ok(files, root),
            laws::mirrors(self.model(), files, root, files.dom()),
            is_tree(files, root),
        ensures
            files.dom().finite(),
            self.live_count() == files.dom().len() + 2,
            self.told_paths().len() == files.dom().len(),
    {
        let v = self.model();
        let n = v.slots.len() as int;
        self.lemma_ok();
        self.lemma_entry(v.root);
        let r = types::record_of(root.0);
        assert(v.chain_ok(r, v.chains[r]));
        assert(v.has(v.root as int));
        assert(v.root != v.lost_found);
        let live = Set::new(|i: int| 0 <= i < n && v.has(i));
        lemma_entries_count(v, n);
        self.lemma_live_count();
        let inner = live.remove(v.root as int).remove(v.lost_found as int);
        let name = |i: int| v.ent(i as EntryIdx).frn;
        assert(inner.map(name) =~= files.dom()) by {
            assert forall|f: Frn| inner.map(name).contains(f) <==> files.dom().contains(f) by {
                if inner.map(name).contains(f) {
                    let i = choose|i: int| inner.contains(i) && name(i) == f;
                    self.lemma_real_entry(files, root, i as EntryIdx);
                }
                if files.dom().contains(f) {
                    self.lemma_file_entry(files, root, f);
                    let i = v.head(f)->0 as int;
                    assert(inner.contains(i) && name(i) == f);
                }
            }
        }
        assert forall|a: int, b: int|
            inner.contains(a) && inner.contains(b) && name(a) == name(b) implies a == b by {
            self.lemma_real_entry(files, root, a as EntryIdx);
            self.lemma_real_entry(files, root, b as EntryIdx);
        }
        vstd::set_lib::lemma_map_size(inner, files.dom(), name);
        self.lemma_told_count(files, root, n);
    }

    /// The slots that are not free hold the entries.
    proof fn lemma_live_count(&self)
        requires
            self.wf(),
        ensures
            self.live_count() == Set::new(
                |i: int| 0 <= i < self.model().slots.len() && self.model().has(i),
            ).len(),
    {
        let v = self.model();
        let n = v.slots.len() as int;
        let live = Set::new(|i: int| 0 <= i < n && v.has(i));
        let whole = vstd::set_lib::set_int_range(0, n);
        vstd::set_lib::lemma_int_range(0, n);
        self.entries.lemma_wf();
        self.lemma_entry(v.root);
        let f = v.free.map_values(|x: EntryIdx| x as int);
        assert(f.no_duplicates()) by {
            assert forall|a: int, b: int|
                0 <= a < f.len() && 0 <= b < f.len() && a != b implies f[a] != f[b] by {
                assert(v.free[a] != v.free[b]);
            }
        }
        f.unique_seq_to_set();
        let dead = f.to_set();
        assert(whole.difference(dead) =~= live) by {
            assert forall|i: int| whole.difference(dead).contains(i) <==> live.contains(i) by {
                if 0 <= i < n {
                    self.lemma_live(i);
                    if !v.has(i) {
                        assert(v.free.contains(i as EntryIdx));
                        let k = choose|k: int| 0 <= k < v.free.len() && v.free[k] == i as EntryIdx;
                        assert(f[k] == i);
                        assert(f.contains(i));
                    }
                    if f.contains(i) {
                        let k = choose|k: int| 0 <= k < f.len() && f[k] == i;
                        assert(v.free[k] == i);
                    }
                }
            }
        }
        assert(dead.subset_of(whole)) by {
            assert forall|i: int| dead.contains(i) implies whole.contains(i) by {
                let k = choose|k: int| 0 <= k < f.len() && f[k] == i;
                assert(v.free[k] < n);
            }
        }
        vstd::set_lib::lemma_set_disjoint_lens(live, dead);
        assert(live + dead =~= whole);
    }

    /// An index that is made from a listing of a tree of files, in any order
    /// and with repetitions, tells the path of every file, once, and nothing
    /// else; no entry stands in for a directory.
    pub proof fn law_listing_tells_every_file(
        &self,
        files: Map<Frn, File>,
        root: Frn,
        order: Seq<Frn>,
        text: Seq<char>,
    )
        requires
            self.wf(),
            self.model() == laws::all_listed(model::new_volume(root), files, order),
            laws::files_ok(files, root),
            is_tree(files, root),
            2 * order.len() + 2 < NIL,
            forall|k: int| 0 <= k < order.len() ==> files.dom().contains(#[trigger] order[k]),
            forall|f: Frn| #[trigger] files.dom().contains(f) ==> order.contains(f),
        ensures
            self.told_paths().contains(text) <==> is_path(files, root, text),
            self.told_paths().len() == files.dom().len(),
            self.live_count() == files.dom().len() + 2,
            self.model().placeholders == 0,
    {
        laws::law_listing_order_does_not_matter(files, root, order);
        self.law_paths_told_are_those_of_the_files(files, root, text);
        self.law_every_file_counts_once(files, root);
    }

    /// An index that mirrors a file system tells the paths of its files as they
    /// are after a batch of the journal, and no others.
    pub proof fn law_batch_tells_every_file(
        &self,
        v: Volume,
        files: Map<Frn, File>,
        root: Frn,
        records: Seq<RecordModel>,
        text: Seq<char>,
    )
        requires
            self.wf(),
            self.model() == model::batch_applied(v, records).volume,
            v.ok(),
            v.slots.len() + 2 * laws::told(records).len() < NIL,
            laws::files_ok(files, root),
            laws::mirrors(v, files, root, files.dom()),
            laws::all_can_happen(files, root, laws::told(records)),
            is_tree(laws::all_stepped(files, laws::told(records)), root),
        ensures
            self.told_paths().contains(text) <==> is_path(
                laws::all_stepped(files, laws::told(records)),
                root,
                text,
            ),
            self.told_paths().len() == laws::all_stepped(files, laws::told(records)).dom().len(),
    {
        let now = laws::all_stepped(files, laws::told(records));
        laws::law_journal_keeps_the_mirror(v, files, root, records);
        self.law_paths_told_are_those_of_the_files(now, root, text);
        self.law_every_file_counts_once(now, root);
    }

    /// The directory of every entry is there, unless the entry has lost it.
    pub proof fn lemma_grounded(&self)
        requires
            self.wf(),
        ensures
            self.model().grounded(),
    {
        let v = self.model();
        self.lemma_ok();
        assert forall|i: EntryIdx| #[trigger]
            v.has(i as int) && !v.detached.contains(i) && v.ent(i).parent != NIL implies v.has(
            v.ent(i).parent as int,
        ) by {
            self.lemma_entry(i);
        }
    }

    /// An entry that is its own parent leads nowhere.
    proof fn lemma_own_parent(&self, i: EntryIdx, hops: int)
        requires
            self.wf(),
            self.above(i) == i,
            hops >= 1,
            i != NIL,
        ensures
            climb(self.table(), self.model().lost_found, i, hops).len() > 0,
            climb(self.table(), self.model().lost_found, i, hops).last() == i,
        decreases hops,
    {
        if hops > 1 {
            self.lemma_own_parent(i, hops - 1);
            let rest = climb(self.table(), self.model().lost_found, i, hops - 1);
            assert((seq![i] + rest).last() == rest.last());
        }
    }

    /// The path of an entry is the one in the scene.
    proof fn lemma_scene_path(&self, i: EntryIdx, hops: int)
        requires
            self.wf(),
            self.model().has(i as int),
            hops >= 1,
        ensures
            ({
                let v = self.model();
                let c = climb(self.table(), v.lost_found, i, hops);
                let p = v.spot(i);
                &&& c.len() > 0
                &&& (self.above(c.last()) == NIL && c.last() != v.lost_found) == scene::reachable(
                    v.scene(),
                    v.lost(),
                    p,
                    hops,
                )
                &&& v.has(v.root as int) && scene::reachable(
                    v.scene(),
                    v.lost(),
                    p,
                    hops,
                ) ==> self.with_path(
                    Seq::empty(),
                    c,
                ) == scene::path(v.scene(), v.spot(v.root), p, hops)
            }),
        decreases hops,
    {
        let v = self.model();
        let m = v.scene();
        let e = self.table();
        let lf = v.lost_found;
        let p = v.spot(i);
        let c = climb(e, lf, i, hops);
        self.lemma_grounded();
        self.lemma_entry(i);
        self.lemma_entry(lf);
        replay::lemma_spot(v, i);
        if v.has(v.root as int) {
            replay::lemma_spot(v, v.root);
        }
        replay::lemma_spot(v, lf);
        replay::lemma_scene_whole(v);
        assert(m[p] == v.link(i));
        assert(v.spot(lf) == v.lost());
        let q = self.above(i);
        if q == NIL {
            assert(c == seq![i]);
            assert(seq![i] + Seq::<EntryIdx>::empty() =~= seq![i]);
            self.lemma_first_last(Seq::empty(), i, Seq::empty());
        } else if v.detached.contains(i) {
            assert(!graph::cut(e[lf as int]));
            if hops > 1 {
                assert(climb(e, lf, lf, hops - 1) == seq![lf]);
                assert((seq![i] + seq![lf]).last() == lf);
            }
        } else if q == i {
            self.lemma_own_parent(i, hops);
        } else if hops > 1 {
            self.lemma_entry(q);
            self.lemma_scene_path(q, hops - 1);
            let rest = climb(e, lf, q, hops - 1);
            assert((seq![i] + rest).last() == rest.last());
            self.lemma_first_last(Seq::empty(), i, rest);
        }
    }

    /// The entry is told.
    spec fn is_told(&self, i: EntryIdx) -> bool {
        !synthetic(self.model(), i) && self.path_status(i) == PathStatus::Whole
    }

    /// An entry is told where its scene shows it.
    proof fn lemma_scene_told(&self, i: EntryIdx)
        requires
            self.wf(),
            self.model().has(i as int),
            self.model().has(self.model().root as int),
        ensures
            ({
                let v = self.model();
                let p = v.spot(i);
                &&& self.is_told(i) == scene::shows(v.scene(), v.spot(v.root), v.lost(), p)
                &&& self.is_told(i) ==> self.with_path(Seq::empty(), self.ancestry(i))
                    == scene::path(v.scene(), v.spot(v.root), p, MAX_PATH_HOPS as int)
            }),
    {
        let v = self.model();
        self.lemma_ok();
        self.lemma_entry(i);
        self.lemma_scene_path(i, MAX_PATH_HOPS as int);
        replay::lemma_spot(v, i);
        replay::lemma_spot(v, v.root);
        replay::lemma_spot(v, v.lost_found);
        self.lemma_grounded();
        replay::lemma_scene_whole(v);
    }

    /// How many of the first `n` entries are told.
    proof fn lemma_told_set(&self, n: int)
        requires
            0 <= n <= self.model().slots.len(),
        ensures
            ({
                let s = Set::new(
                    |i: int| 0 <= i < n && self.model().has(i) && self.is_told(i as EntryIdx),
                );
                s.finite() && self.real_paths(entries_before(self.model(), n)).len() == s.len()
            }),
        decreases n,
    {
        let v = self.model();
        let s = Set::new(|i: int| 0 <= i < n && v.has(i) && self.is_told(i as EntryIdx));
        if n == 0 {
            assert(s =~= Set::empty());
        } else {
            self.lemma_told_set(n - 1);
            let t = Set::new(|i: int| 0 <= i < n - 1 && v.has(i) && self.is_told(i as EntryIdx));
            let all = entries_before(v, n);
            if v.has(n - 1) {
                assert(all.drop_last() =~= entries_before(v, n - 1));
                assert(all.last() == (n - 1) as EntryIdx);
            }
            if v.has(n - 1) && self.is_told((n - 1) as EntryIdx) {
                assert(s =~= t.insert(n - 1));
            } else {
                assert(s =~= t);
            }
        }
    }

    /// What an index tells is what its scene shows.
    proof fn lemma_scene_tells(&self, text: Seq<char>)
        requires
            self.wf(),
            self.model().has(self.model().root as int),
        ensures
            ({
                let v = self.model();
                let m = v.scene();
                let root = v.spot(v.root);
                &&& self.told_paths().contains(text) <==> exists|p: Spot|
                    #[trigger] scene::shows(m, root, v.lost(), p) && text == wtf8::shown_text(
                        scene::path(m, root, p, MAX_PATH_HOPS as int),
                    )
                &&& self.told_paths().len() == Set::new(
                    |p: Spot| scene::shows(m, root, v.lost(), p),
                ).len()
            }),
    {
        let v = self.model();
        let m = v.scene();
        let n = v.slots.len() as int;
        let root = v.spot(v.root);
        let list = entries_before(v, n);
        self.lemma_ok();
        self.lemma_entry(v.root);
        read::lemma_entries_before(v, n);
        self.lemma_told(list, text);
        if self.told_paths().contains(text) {
            let k = choose|k: int| 0 <= k < list.len() && self.told_as(#[trigger] list[k], text);
            let i = list[k];
            assert(v.has(i as int));
            self.lemma_scene_told(i);
            assert(scene::shows(m, root, v.lost(), v.spot(i)));
        }
        if exists|p: Spot| #[trigger]
            scene::shows(m, root, v.lost(), p) && text == wtf8::shown_text(
                scene::path(m, root, p, MAX_PATH_HOPS as int),
            ) {
            let p = choose|p: Spot| #[trigger]
                scene::shows(m, root, v.lost(), p) && text == wtf8::shown_text(
                    scene::path(m, root, p, MAX_PATH_HOPS as int),
                );
            let i = v.slot_at(p);
            replay::lemma_slot(v, p);
            self.lemma_scene_told(i);
            assert(list.contains(i));
            let k = choose|k: int| 0 <= k < list.len() && list[k] == i;
            assert(self.told_as(list[k], text));
        }
        let s = Set::new(|i: int| 0 <= i < n && v.has(i) && self.is_told(i as EntryIdx));
        let t = Set::new(|p: Spot| scene::shows(m, root, v.lost(), p));
        let stand = |i: int| v.spot(i as EntryIdx);
        self.lemma_told_set(n);
        assert(s.map(stand) =~= t) by {
            assert forall|p: Spot| s.map(stand).contains(p) <==> t.contains(p) by {
                if s.map(stand).contains(p) {
                    let i = choose|i: int| s.contains(i) && stand(i) == p;
                    self.lemma_scene_told(i as EntryIdx);
                }
                if t.contains(p) {
                    let i = v.slot_at(p);
                    replay::lemma_slot(v, p);
                    self.lemma_scene_told(i);
                    assert(s.contains(i as int) && stand(i as int) == p);
                }
            }
        }
        assert forall|a: int, b: int|
            s.contains(a) && s.contains(b) && stand(a) == stand(b) implies a == b by {
            replay::lemma_spot(v, a as EntryIdx);
            replay::lemma_spot(v, b as EntryIdx);
        }
        vstd::set_lib::lemma_map_size(s, t, stand);
    }

    /// A scene shows each entry once.
    proof fn lemma_scene_count(&self)
        requires
            self.wf(),
        ensures
            self.live_count() == self.model().scene().dom().len(),
    {
        let v = self.model();
        let live = Set::new(|i: int| 0 <= i < v.slots.len() && v.has(i));
        let all = v.scene().dom();
        let stand = |i: int| v.spot(i as EntryIdx);
        self.lemma_ok();
        self.lemma_live_count();
        lemma_entries_count(v, v.slots.len() as int);
        assert(live.map(stand) =~= all) by {
            assert forall|p: Spot| live.map(stand).contains(p) <==> all.contains(p) by {
                if live.map(stand).contains(p) {
                    let i = choose|i: int| live.contains(i) && stand(i) == p;
                    replay::lemma_spot(v, i as EntryIdx);
                }
                if all.contains(p) {
                    let i = v.slot_at(p);
                    replay::lemma_slot(v, p);
                    assert(live.contains(i as int) && stand(i as int) == p);
                }
            }
        }
        assert forall|a: int, b: int|
            live.contains(a) && live.contains(b) && stand(a) == stand(b) implies a == b by {
            replay::lemma_spot(v, a as EntryIdx);
            replay::lemma_spot(v, b as EntryIdx);
        }
        vstd::set_lib::lemma_map_size(live, all, stand);
    }

    /// An entry that is in nothing is the root directory, where that is the one
    /// such entry.
    proof fn lemma_root_spot(&self, p: Spot)
        requires
            self.wf(),
            self.model().one_root(),
            self.model().stands(p),
            self.model().scene()[p].up is Top,
            p != self.model().lost(),
        ensures
            self.model().has(self.model().root as int),
            self.model().spot(self.model().root) == p,
    {
        let v = self.model();
        self.lemma_grounded();
        replay::lemma_slot(v, p);
        replay::lemma_scene_whole(v);
        let i = v.slot_at(p);
        assert(v.has(i as int) && v.ent(i).parent == NIL);
        replay::lemma_slot(v, v.lost());
    }

    /// Where no entry is in nothing, no path is told.
    proof fn lemma_nothing_told(&self, text: Seq<char>)
        requires
            self.wf(),
            forall|p: Spot| #[trigger]
                self.model().scene().dom().contains(p) && self.model().scene()[p].up is Top ==> p
                    == self.model().lost(),
        ensures
            !self.told_paths().contains(text),
            self.told_paths().len() == 0,
    {
        let v = self.model();
        let n = v.slots.len() as int;
        let s = Set::new(|i: int| 0 <= i < n && v.has(i) && self.is_told(i as EntryIdx));
        self.lemma_grounded();
        self.lemma_entry(v.root);
        replay::lemma_scene_whole(v);
        assert(s =~= Set::empty()) by {
            assert forall|i: int| !s.contains(i) by {
                if s.contains(i) {
                    let j = i as EntryIdx;
                    replay::lemma_spot(v, j);
                    self.lemma_scene_path(j, MAX_PATH_HOPS as int);
                    scene::lemma_unreachable(
                        v.scene(),
                        v.lost(),
                        v.spot(j),
                        MAX_PATH_HOPS as int,
                    );
                }
            }
        }
        self.lemma_told_set(n);
    }

    /// Indexes that show the same tell the same paths and have as many entries.
    pub proof fn law_what_looks_alike_tells_alike(&self, other: &VolumeIndex, text: Seq<char>)
        requires
            self.wf(),
            other.wf(),
            self.model().looks_like(other.model()),
            self.model().rooted_like(other.model()) || (self.model().one_root()
                && other.model().one_root()),
        ensures
            self.told_paths().contains(text) <==> other.told_paths().contains(text),
            self.told_paths().len() == other.told_paths().len(),
            self.live_count() == other.live_count(),
    {
        self.lemma_scene_count();
        other.lemma_scene_count();
        let v = self.model();
        let w = other.model();
        if exists|p: Spot| #[trigger]
            v.scene().dom().contains(p) && v.scene()[p].up is Top && p != v.lost() {
            if !v.rooted_like(w) {
                let p = choose|p: Spot| #[trigger]
                    v.scene().dom().contains(p) && v.scene()[p].up is Top && p != v.lost();
                self.lemma_root_spot(p);
                other.lemma_root_spot(p);
            }
            self.lemma_scene_tells(text);
            other.lemma_scene_tells(text);
        } else {
            self.lemma_nothing_told(text);
            other.lemma_nothing_told(text);
        }
    }

    /// An index to which a batch of the journal was applied twice tells the
    /// paths of one to which it was applied once, whatever the index held
    /// before. A batch that ends the root directory is left out where entries
    /// other than the root directory are in nothing: which of them has the slot
    /// of the root directory then, and so no name, rests on what came last.
    pub proof fn law_batch_twice_tells_the_same_paths(
        before: &VolumeIndex,
        once: &VolumeIndex,
        twice: &VolumeIndex,
        records: Seq<RecordModel>,
        text: Seq<char>,
    )
        requires
            before.wf(),
            once.wf(),
            twice.wf(),
            before.model().slots.len() + 4 * laws::told(records).len() < NIL,
            before.model().keeps_root(laws::told(records)) || before.model().one_root(),
            once.model() == model::batch_applied(before.model(), records).volume,
            twice.model() == model::batch_applied(once.model(), records).volume,
        ensures
            twice.told_paths().contains(text) <==> once.told_paths().contains(text),
            twice.told_paths().len() == once.told_paths().len(),
            twice.live_count() == once.live_count(),
            twice.model().placeholders == once.model().placeholders,
            twice.model().looks_like(once.model()),
            once.model().generation == before.model().generation + 1,
            twice.model().generation == before.model().generation + 2,
    {
        before.lemma_grounded();
        before.lemma_surplus();
        replay::law_batch_twice_is_batch_once(before.model(), records);
        twice.law_what_looks_alike_tells_alike(once, text);
    }
}

} // verus!
