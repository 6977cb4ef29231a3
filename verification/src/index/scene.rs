//! What an index shows, whatever slots its entries are in.
//!
//! An entry is told by where it stands: at which place in the chain of its
//! file. Two indexes with the same scene hold the same entries below the same
//! directories.

use crate::index::model;
use crate::index::store::{MTIME_UNKNOWN, SIZE_UNKNOWN};
use crate::index::volume::read;
use crate::types;
use crate::types::{EntryIdx, Frn};
use crate::usn::ops::OpModel;
use vstd::prelude::*;

verus! {

/// Where an entry stands.
pub ghost enum Spot {
    /// In the chain of a record number.
    At { record: u64, place: int },
    /// In no chain.
    Loose { slot: EntryIdx },
}

/// What an entry is below.
pub ghost enum Up {
    /// Nothing.
    Top,
    /// A directory that has ended under it, or itself.
    Lost,
    /// An entry.
    In { spot: Spot },
}

/// An entry without its slot.
pub ghost struct Link {
    pub frn: Frn,
    pub up: Up,
    pub name: Seq<u8>,
    pub lossy: bool,
    pub dir: bool,
    pub placeholder: bool,
    pub size: u64,
    pub mtime: i64,
}

/// The first link of a file.
pub open spec fn first(f: Frn) -> Spot {
    Spot::At { record: types::record_of(f.0), place: 0 }
}

/// The second link of a file.
pub open spec fn second(f: Frn) -> Spot {
    Spot::At { record: types::record_of(f.0), place: 1 }
}

/// The spot is in the chain of a record number.
pub open spec fn within(p: Spot, r: u64) -> bool {
    p is At && p->record == r
}

/// The entry is below one of the chain of a record number.
pub open spec fn hangs(x: Link, r: u64) -> bool {
    x.up is In && within(x.up->spot, r)
}

/// The entry, after those of a record number have ended.
pub open spec fn severed(x: Link, r: u64) -> Link {
    if hangs(x, r) {
        Link { up: Up::Lost, ..x }
    } else {
        x
    }
}

/// Without the entries of a record number.
pub open spec fn cleared(m: Map<Spot, Link>, r: u64) -> Map<Spot, Link> {
    Map::new(|p: Spot| m.dom().contains(p) && !within(p, r), |p: Spot| severed(m[p], r))
}

/// The record number of the file leads to it.
pub open spec fn held(m: Map<Spot, Link>, f: Frn) -> bool {
    m.dom().contains(first(f)) && m[first(f)].frn == f
}

/// With the file in place of what had its record number.
pub open spec fn lodged(m: Map<Spot, Link>, x: Link) -> Map<Spot, Link> {
    cleared(m, types::record_of(x.frn.0)).insert(first(x.frn), x)
}

/// A placeholder for a directory.
pub open spec fn stand_in(f: Frn, lost: Spot) -> Link {
    Link {
        frn: f,
        up: Up::In { spot: lost },
        name: model::placeholder_name(),
        lossy: false,
        dir: true,
        placeholder: true,
        size: SIZE_UNKNOWN,
        mtime: MTIME_UNKNOWN,
    }
}

/// With an entry for a directory that was named.
pub open spec fn with_dir(m: Map<Spot, Link>, lost: Spot, f: Frn) -> Map<Spot, Link> {
    if held(m, f) {
        m
    } else {
        lodged(m, stand_in(f, lost))
    }
}

/// What a file that is seen in a directory is below. One that has the record
/// number of its directory takes its place, and is below nothing else.
pub open spec fn below(f: Frn, parent: Frn) -> Up {
    if types::record_of(f.0) == types::record_of(parent.0) {
        Up::Lost
    } else {
        Up::In { spot: first(parent) }
    }
}

/// With a file that was seen in a directory that has an entry. A file of
/// several links stays as it is.
pub open spec fn entered(
    m: Map<Spot, Link>,
    f: Frn,
    parent: Frn,
    name: Seq<u8>,
    lossy: bool,
    dir: bool,
) -> Map<Spot, Link> {
    let up = below(f, parent);
    if !held(m, f) {
        lodged(
            m,
            Link {
                frn: f,
                up,
                name,
                lossy,
                dir,
                placeholder: false,
                size: SIZE_UNKNOWN,
                mtime: MTIME_UNKNOWN,
            },
        )
    } else if m.dom().contains(second(f)) {
        m
    } else {
        m.insert(first(f), Link { up, name, lossy, dir, placeholder: false, ..m[first(f)] })
    }
}

/// With a file that was seen in a directory.
pub open spec fn with_file(
    m: Map<Spot, Link>,
    lost: Spot,
    f: Frn,
    parent: Frn,
    name: Seq<u8>,
    lossy: bool,
    dir: bool,
) -> Map<Spot, Link> {
    entered(with_dir(m, lost, parent), f, parent, name, lossy, dir)
}

/// Without a file.
pub open spec fn without_file(m: Map<Spot, Link>, f: Frn) -> Map<Spot, Link> {
    if held(m, f) {
        cleared(m, types::record_of(f.0))
    } else {
        m
    }
}

/// After a step of the journal.
pub open spec fn taken(m: Map<Spot, Link>, lost: Spot, op: OpModel) -> Map<Spot, Link> {
    match op {
        OpModel::Upsert { frn, parent, name, name_lossy, is_dir } => with_file(
            m,
            lost,
            frn,
            parent,
            name,
            name_lossy,
            is_dir,
        ),
        OpModel::Delete { frn } => without_file(m, frn),
        _ => m,
    }
}

/// After steps of the journal.
pub open spec fn all_taken(m: Map<Spot, Link>, lost: Spot, todo: Seq<OpModel>) -> Map<Spot, Link>
    decreases todo.len(),
{
    if todo.len() == 0 {
        m
    } else {
        taken(all_taken(m, lost, todo.drop_last()), lost, todo.last())
    }
}

/// Chains have a first link, and what an entry is below is there.
pub open spec fn whole(m: Map<Spot, Link>) -> bool {
    &&& forall|p: Spot| #[trigger]
        m.dom().contains(p) && p is At ==> m.dom().contains(Spot::At { record: p->record, place: 0 })
    &&& forall|p: Spot| #[trigger]
        m.dom().contains(p) && m[p].up is In ==> m.dom().contains(m[p].up->spot)
}

/// Going up from an entry ends, after at most `hops` entries, at one that is in
/// nothing and is not the lost and found directory.
pub open spec fn reachable(m: Map<Spot, Link>, lost: Spot, p: Spot, hops: int) -> bool
    decreases hops,
{
    match m[p].up {
        Up::Top => p != lost,
        Up::Lost => false,
        Up::In { spot } => hops > 1 && reachable(m, lost, spot, hops - 1),
    }
}

/// The names from the top down to an entry; the root directory has none.
pub open spec fn path(m: Map<Spot, Link>, root: Spot, p: Spot, hops: int) -> Seq<u8>
    decreases hops,
{
    let above = match m[p].up {
        Up::In { spot } if hops > 1 => path(m, root, spot, hops - 1),
        _ => Seq::empty(),
    };
    if p == root {
        above
    } else {
        read::extended(above, m[p].name)
    }
}

/// The entry is real, and its path is told.
pub open spec fn shows(m: Map<Spot, Link>, root: Spot, lost: Spot, p: Spot) -> bool {
    &&& m.dom().contains(p)
    &&& p != root
    &&& p != lost
    &&& !m[p].placeholder
    &&& reachable(m, lost, p, read::MAX_PATH_HOPS as int)
}

/// Where no entry is in nothing, going up ends nowhere.
pub proof fn lemma_unreachable(m: Map<Spot, Link>, lost: Spot, p: Spot, hops: int)
    requires
        whole(m),
        m.dom().contains(p),
        forall|q: Spot| #[trigger] m.dom().contains(q) && m[q].up is Top ==> q == lost,
    ensures
        !reachable(m, lost, p, hops),
    decreases hops,
{
    if let Up::In { spot } = m[p].up {
        if hops > 1 {
            lemma_unreachable(m, lost, spot, hops - 1);
        }
    }
}

/// A deletion before a step is overridden by one behind it.
proof fn lemma_absorb_dd(m: Map<Spot, Link>, f: Frn, g: Frn)
    requires
        whole(m),
    ensures
        without_file(without_file(without_file(m, f), g), f) == without_file(
            without_file(m, g),
            f,
        ),
{
    let a = without_file(without_file(without_file(m, f), g), f);
    let b = without_file(without_file(m, g), f);
    assert forall|p: Spot| a.dom().contains(p) <==> b.dom().contains(p) by {}
    assert forall|p: Spot| a.dom().contains(p) implies a[p] == b[p] by {}
    assert(a =~= b);
}

/// The maps say the same of a spot.
spec fn same_at(a: Map<Spot, Link>, b: Map<Spot, Link>, p: Spot) -> bool {
    a.dom().contains(p) == b.dom().contains(p) && (a.dom().contains(p) ==> a[p] == b[p])
}

/// A deletion before a file is seen is overridden by one behind it.
#[verifier::rlimit(50)]
proof fn lemma_absorb_du(
    m: Map<Spot, Link>,
    lost: Spot,
    f: Frn,
    g: Frn,
    q: Frn,
    name: Seq<u8>,
    lossy: bool,
    dir: bool,
    p: Spot,
)
    requires
        whole(m),
        lost is Loose,
        m.dom().contains(lost),
    ensures
        same_at(
            without_file(with_file(without_file(m, f), lost, g, q, name, lossy, dir), f),
            without_file(with_file(m, lost, g, q, name, lossy, dir), f),
            p,
        ),
{
}

/// Seeing a file before a deletion is overridden by seeing it behind it.
#[verifier::rlimit(50)]
proof fn lemma_absorb_ud(
    m: Map<Spot, Link>,
    lost: Spot,
    f: Frn,
    g: Frn,
    q: Frn,
    name: Seq<u8>,
    lossy: bool,
    dir: bool,
    p: Spot,
)
    requires
        whole(m),
        lost is Loose,
        m.dom().contains(lost),
    ensures
        same_at(
            with_file(
                without_file(with_file(m, lost, g, q, name, lossy, dir), f),
                lost,
                g,
                q,
                name,
                lossy,
                dir,
            ),
            with_file(without_file(m, f), lost, g, q, name, lossy, dir),
            p,
        ),
{
}

/// Both hold a file of one link, and differ at most in what the link says.
spec fn twins(a: Map<Spot, Link>, b: Map<Spot, Link>, f: Frn) -> bool {
    &&& held(a, f)
    &&& held(b, f)
    &&& !a.dom().contains(second(f))
    &&& a[first(f)].size == b[first(f)].size
    &&& a[first(f)].mtime == b[first(f)].mtime
    &&& forall|p: Spot|
        #![trigger a.dom().contains(p)]
        #![trigger b.dom().contains(p)]
        p != first(f) ==> same_at(a, b, p)
}

/// Neither holds a file, and they differ at most in what has its record number.
spec fn apart(a: Map<Spot, Link>, b: Map<Spot, Link>, f: Frn) -> bool {
    let r = types::record_of(f.0);
    &&& !held(a, f)
    &&& !held(b, f)
    &&& forall|p: Spot|
        #![trigger a.dom().contains(p)]
        #![trigger b.dom().contains(p)]
        !within(p, r) ==> {
            &&& a.dom().contains(p) == b.dom().contains(p)
            &&& a.dom().contains(p) ==> severed(a[p], r) == severed(b[p], r)
        }
}

/// The second holds a new file in place of what has its record number in the
/// first.
spec fn renewed(a: Map<Spot, Link>, b: Map<Spot, Link>, f: Frn) -> bool {
    let r = types::record_of(f.0);
    &&& !held(a, f)
    &&& held(b, f)
    &&& b[first(f)].size == SIZE_UNKNOWN
    &&& b[first(f)].mtime == MTIME_UNKNOWN
    &&& forall|p: Spot|
        #![trigger a.dom().contains(p)]
        #![trigger b.dom().contains(p)]
        if within(p, r) {
            b.dom().contains(p) ==> p == first(f)
        } else {
            &&& a.dom().contains(p) == b.dom().contains(p)
            &&& a.dom().contains(p) ==> severed(a[p], r) == b[p]
        }
}

/// The maps differ at most in what seeing the file would make alike.
spec fn near(a: Map<Spot, Link>, b: Map<Spot, Link>, f: Frn) -> bool {
    ||| a == b
    ||| twins(a, b, f)
    ||| apart(a, b, f)
    ||| renewed(a, b, f)
}

proof fn lemma_near_dir(a: Map<Spot, Link>, b: Map<Spot, Link>, f: Frn, lost: Spot, g: Frn)
    requires
        near(a, b, f),
        whole(a),
        whole(b),
        lost is Loose,
    ensures
        near(with_dir(a, lost, g), with_dir(b, lost, g), f),
{
    let x = with_dir(a, lost, g);
    let y = with_dir(b, lost, g);
    let r = types::record_of(f.0);
    let q = types::record_of(g.0);
    if a == b {
    } else if twins(a, b, f) {
        if q != r {
            assert(twins(x, y, f));
        } else if g != f {
            assert(x =~= y);
        }
    } else if apart(a, b, f) {
        if g != f {
            assert(apart(x, y, f));
        } else {
            assert(x =~= y);
        }
    } else {
        if q != r {
            assert(renewed(x, y, f));
        } else if g != f {
            assert(apart(x, y, f));
        } else {
            assert(twins(x, y, f));
        }
    }
}

proof fn lemma_near_entered(
    a: Map<Spot, Link>,
    b: Map<Spot, Link>,
    f: Frn,
    g: Frn,
    parent: Frn,
    name: Seq<u8>,
    lossy: bool,
    dir: bool,
)
    requires
        near(a, b, f),
        whole(a),
        whole(b),
        held(a, parent),
        held(b, parent),
    ensures
        near(
            entered(a, g, parent, name, lossy, dir),
            entered(b, g, parent, name, lossy, dir),
            f,
        ),
{
    let x = entered(a, g, parent, name, lossy, dir);
    let y = entered(b, g, parent, name, lossy, dir);
    let r = types::record_of(f.0);
    let q = types::record_of(g.0);
    if a == b {
    } else if twins(a, b, f) {
        if q != r {
            assert(twins(x, y, f));
        } else {
            assert(x =~= y);
        }
    } else if apart(a, b, f) {
        if g != f {
            assert(apart(x, y, f));
        } else {
            assert(x =~= y);
        }
    } else {
        if q != r {
            assert(renewed(x, y, f));
        } else if g != f {
            assert(apart(x, y, f));
        } else {
            assert(x =~= y);
        }
    }
}

/// Seeing the file makes them alike.
proof fn lemma_near_alike(
    a: Map<Spot, Link>,
    b: Map<Spot, Link>,
    f: Frn,
    parent: Frn,
    name: Seq<u8>,
    lossy: bool,
    dir: bool,
)
    requires
        near(a, b, f),
        whole(a),
        whole(b),
    ensures
        entered(a, f, parent, name, lossy, dir) == entered(b, f, parent, name, lossy, dir),
{
    assert(entered(a, f, parent, name, lossy, dir) =~= entered(b, f, parent, name, lossy, dir));
}

/// The maps differ at most in what naming the directory would make alike.
spec fn near_dir(a: Map<Spot, Link>, b: Map<Spot, Link>, f: Frn, lost: Spot) -> bool {
    ||| a == b
    ||| apart(a, b, f)
    ||| renewed(a, b, f) && b[first(f)] == stand_in(f, lost)
}

proof fn lemma_near_dir_dir(a: Map<Spot, Link>, b: Map<Spot, Link>, f: Frn, lost: Spot, g: Frn)
    requires
        near_dir(a, b, f, lost),
        whole(a),
        whole(b),
        lost is Loose,
    ensures
        near_dir(with_dir(a, lost, g), with_dir(b, lost, g), f, lost),
        with_dir(a, lost, f) == with_dir(b, lost, f),
{
    let x = with_dir(a, lost, g);
    let y = with_dir(b, lost, g);
    assert(with_dir(a, lost, f) =~= with_dir(b, lost, f));
    if a == b {
    } else if apart(a, b, f) {
        if g != f {
            assert(apart(x, y, f));
        }
    } else {
        if types::record_of(g.0) != types::record_of(f.0) {
            assert(renewed(x, y, f));
        } else if g != f {
            assert(apart(x, y, f));
        }
    }
}

proof fn lemma_near_dir_entered(
    a: Map<Spot, Link>,
    b: Map<Spot, Link>,
    f: Frn,
    lost: Spot,
    g: Frn,
    parent: Frn,
    name: Seq<u8>,
    lossy: bool,
    dir: bool,
)
    requires
        near_dir(a, b, f, lost),
        whole(a),
        whole(b),
        lost is Loose,
        held(a, parent),
        held(b, parent),
    ensures
        near_dir(
            entered(a, g, parent, name, lossy, dir),
            entered(b, g, parent, name, lossy, dir),
            f,
            lost,
        ),
{
    let x = entered(a, g, parent, name, lossy, dir);
    let y = entered(b, g, parent, name, lossy, dir);
    if a == b {
    } else if apart(a, b, f) {
        if g != f {
            assert(apart(x, y, f));
        } else {
            assert(x =~= y);
        }
    } else {
        if types::record_of(g.0) != types::record_of(f.0) {
            assert(renewed(x, y, f));
        } else if g != f {
            assert(apart(x, y, f));
        } else {
            assert(x =~= y);
        }
    }
}

proof fn lemma_whole_dir(m: Map<Spot, Link>, lost: Spot, g: Frn)
    requires
        whole(m),
        lost is Loose,
        m.dom().contains(lost),
    ensures
        whole(with_dir(m, lost, g)),
        with_dir(m, lost, g).dom().contains(lost),
        held(with_dir(m, lost, g), g),
{
    let x = with_dir(m, lost, g);
    assert forall|p: Spot| #[trigger] x.dom().contains(p) && x[p].up is In implies x.dom().contains(
        x[p].up->spot,
    ) by {
        assert(p != first(g) ==> m.dom().contains(p));
    }
    assert forall|p: Spot| #[trigger] x.dom().contains(p) && p is At implies x.dom().contains(
        Spot::At { record: p->record, place: 0 },
    ) by {
        assert(p != first(g) ==> m.dom().contains(p));
    }
}

proof fn lemma_whole_entered(
    m: Map<Spot, Link>,
    lost: Spot,
    g: Frn,
    parent: Frn,
    name: Seq<u8>,
    lossy: bool,
    dir: bool,
)
    requires
        whole(m),
        lost is Loose,
        m.dom().contains(lost),
        held(m, parent),
    ensures
        whole(entered(m, g, parent, name, lossy, dir)),
        entered(m, g, parent, name, lossy, dir).dom().contains(lost),
{
    let x = entered(m, g, parent, name, lossy, dir);
    assert forall|p: Spot| #[trigger] x.dom().contains(p) && x[p].up is In implies x.dom().contains(
        x[p].up->spot,
    ) by {
        assert(p != first(g) ==> m.dom().contains(p));
    }
    assert forall|p: Spot| #[trigger] x.dom().contains(p) && p is At implies x.dom().contains(
        Spot::At { record: p->record, place: 0 },
    ) by {
        assert(p != first(g) ==> m.dom().contains(p));
    }
}

proof fn lemma_whole_without(m: Map<Spot, Link>, lost: Spot, g: Frn)
    requires
        whole(m),
        lost is Loose,
        m.dom().contains(lost),
    ensures
        whole(without_file(m, g)),
        without_file(m, g).dom().contains(lost),
{
    let x = without_file(m, g);
    assert forall|p: Spot| #[trigger] x.dom().contains(p) && x[p].up is In implies x.dom().contains(
        x[p].up->spot,
    ) by {
        assert(m.dom().contains(p));
    }
    assert forall|p: Spot| #[trigger] x.dom().contains(p) && p is At implies x.dom().contains(
        Spot::At { record: p->record, place: 0 },
    ) by {
        assert(m.dom().contains(p));
    }
}

/// What is there before a file was seen, and after: seeing it again makes both
/// alike.
proof fn lemma_near_start(
    m: Map<Spot, Link>,
    f: Frn,
    parent: Frn,
    name: Seq<u8>,
    lossy: bool,
    dir: bool,
)
    requires
        whole(m),
        held(m, parent),
    ensures
        near(m, entered(m, f, parent, name, lossy, dir), f),
{
    let x = entered(m, f, parent, name, lossy, dir);
    if !held(m, f) {
        assert(renewed(m, x, f));
    } else if !m.dom().contains(second(f)) {
        assert(twins(m, x, f));
    }
}

proof fn lemma_near_dir_start(m: Map<Spot, Link>, lost: Spot, f: Frn)
    requires
        whole(m),
        lost is Loose,
    ensures
        near_dir(m, with_dir(m, lost, f), f, lost),
{
    if !held(m, f) {
        assert(renewed(m, with_dir(m, lost, f), f));
    }
}

/// Seeing a file before another is overridden by seeing it behind it.
proof fn lemma_absorb_uu(
    m: Map<Spot, Link>,
    lost: Spot,
    f: Frn,
    fp: Frn,
    name: Seq<u8>,
    lossy: bool,
    dir: bool,
    g: Frn,
    gp: Frn,
    gname: Seq<u8>,
    glossy: bool,
    gdir: bool,
)
    requires
        whole(m),
        lost is Loose,
        m.dom().contains(lost),
    ensures
        ({
            let once = with_file(m, lost, f, fp, name, lossy, dir);
            with_file(
                with_file(once, lost, g, gp, gname, glossy, gdir),
                lost,
                f,
                fp,
                name,
                lossy,
                dir,
            ) == with_file(
                with_file(m, lost, g, gp, gname, glossy, gdir),
                lost,
                f,
                fp,
                name,
                lossy,
                dir,
            )
        }),
{
    // The directory first.
    let a = with_dir(m, lost, fp);
    lemma_whole_dir(m, lost, fp);
    lemma_near_dir_start(m, lost, fp);
    lemma_near_dir_dir(m, a, fp, lost, gp);
    let m1 = with_dir(m, lost, gp);
    let a1 = with_dir(a, lost, gp);
    lemma_whole_dir(m, lost, gp);
    lemma_whole_dir(a, lost, gp);
    lemma_near_dir_entered(m1, a1, fp, lost, g, gp, gname, glossy, gdir);
    let m2 = entered(m1, g, gp, gname, glossy, gdir);
    let a2 = entered(a1, g, gp, gname, glossy, gdir);
    lemma_whole_entered(m1, lost, g, gp, gname, glossy, gdir);
    lemma_whole_entered(a1, lost, g, gp, gname, glossy, gdir);
    lemma_near_dir_dir(m2, a2, fp, lost, fp);
    // The file then.
    let b = entered(a, f, fp, name, lossy, dir);
    lemma_whole_entered(a, lost, f, fp, name, lossy, dir);
    lemma_near_start(a, f, fp, name, lossy, dir);
    lemma_near_dir(a, b, f, lost, gp);
    let b1 = with_dir(b, lost, gp);
    lemma_whole_dir(b, lost, gp);
    lemma_near_entered(a1, b1, f, g, gp, gname, glossy, gdir);
    let b2 = entered(b1, g, gp, gname, glossy, gdir);
    lemma_whole_entered(b1, lost, g, gp, gname, glossy, gdir);
    lemma_near_dir(a2, b2, f, lost, fp);
    let a3 = with_dir(a2, lost, fp);
    let b3 = with_dir(b2, lost, fp);
    lemma_whole_dir(a2, lost, fp);
    lemma_whole_dir(b2, lost, fp);
    lemma_near_alike(a3, b3, f, fp, name, lossy, dir);
}

/// What is there stays whole.
pub proof fn lemma_whole_taken(m: Map<Spot, Link>, lost: Spot, op: OpModel)
    requires
        whole(m),
        lost is Loose,
        m.dom().contains(lost),
    ensures
        whole(taken(m, lost, op)),
        taken(m, lost, op).dom().contains(lost),
{
    match op {
        OpModel::Upsert { frn, parent, name, name_lossy, is_dir } => {
            lemma_whole_dir(m, lost, parent);
            lemma_whole_entered(
                with_dir(m, lost, parent),
                lost,
                frn,
                parent,
                name,
                name_lossy,
                is_dir,
            );
        },
        OpModel::Delete { frn } => {
            lemma_whole_without(m, lost, frn);
        },
        _ => {},
    }
}

/// A step that is taken again later need not be taken before: the later one
/// overrides it.
pub proof fn law_later_step_overrides(m: Map<Spot, Link>, lost: Spot, o: OpModel, p: OpModel)
    requires
        whole(m),
        lost is Loose,
        m.dom().contains(lost),
    ensures
        taken(taken(taken(m, lost, o), lost, p), lost, o) == taken(taken(m, lost, p), lost, o),
        taken(taken(m, lost, o), lost, o) == taken(m, lost, o),
{
    let x = taken(taken(taken(m, lost, o), lost, p), lost, o);
    let y = taken(taken(m, lost, p), lost, o);
    match o {
        OpModel::Upsert { frn: f, parent: fp, name, name_lossy, is_dir } => {
            lemma_twice(m, lost, f, fp, name, name_lossy, is_dir);
            match p {
                OpModel::Upsert { frn: g, parent: gp, name: n, name_lossy: l, is_dir: d } => {
                    lemma_absorb_uu(m, lost, f, fp, name, name_lossy, is_dir, g, gp, n, l, d);
                },
                OpModel::Delete { frn: g } => {
                    assert forall|s: Spot| same_at(x, y, s) by {
                        lemma_absorb_ud(m, lost, g, f, fp, name, name_lossy, is_dir, s);
                    }
                    assert forall|s: Spot| #[trigger] x.dom().contains(s) == y.dom().contains(s) by {
                        assert(same_at(x, y, s));
                    }
                    assert forall|s: Spot| #[trigger] x.dom().contains(s) implies x[s] == y[s] by {
                        assert(same_at(x, y, s));
                    }
                    assert(x =~= y);
                },
                _ => {},
            }
        },
        OpModel::Delete { frn: f } => {
            assert(taken(taken(m, lost, o), lost, o) =~= taken(m, lost, o));
            match p {
                OpModel::Upsert { frn: g, parent, name, name_lossy, is_dir } => {
                    assert forall|s: Spot| same_at(x, y, s) by {
                        lemma_absorb_du(m, lost, f, g, parent, name, name_lossy, is_dir, s);
                    }
                    assert forall|s: Spot| #[trigger] x.dom().contains(s) == y.dom().contains(s) by {
                        assert(same_at(x, y, s));
                    }
                    assert forall|s: Spot| #[trigger] x.dom().contains(s) implies x[s] == y[s] by {
                        assert(same_at(x, y, s));
                    }
                    assert(x =~= y);
                },
                OpModel::Delete { frn: g } => {
                    lemma_absorb_dd(m, f, g);
                },
                _ => {},
            }
        },
        _ => {},
    }
}

proof fn lemma_twice(
    m: Map<Spot, Link>,
    lost: Spot,
    f: Frn,
    parent: Frn,
    name: Seq<u8>,
    lossy: bool,
    dir: bool,
)
    requires
        whole(m),
        lost is Loose,
        m.dom().contains(lost),
    ensures
        with_file(with_file(m, lost, f, parent, name, lossy, dir), lost, f, parent, name, lossy, dir)
            == with_file(m, lost, f, parent, name, lossy, dir),
{
    let a = with_dir(m, lost, parent);
    lemma_whole_dir(m, lost, parent);
    let b = entered(a, f, parent, name, lossy, dir);
    lemma_whole_entered(a, lost, f, parent, name, lossy, dir);
    lemma_near_start(a, f, parent, name, lossy, dir);
    lemma_near_dir(a, b, f, lost, parent);
    lemma_whole_dir(b, lost, parent);
    lemma_near_alike(a, with_dir(b, lost, parent), f, parent, name, lossy, dir);
}

proof fn lemma_whole_all(m: Map<Spot, Link>, lost: Spot, todo: Seq<OpModel>)
    requires
        whole(m),
        lost is Loose,
        m.dom().contains(lost),
    ensures
        whole(all_taken(m, lost, todo)),
        all_taken(m, lost, todo).dom().contains(lost),
    decreases todo.len(),
{
    if todo.len() > 0 {
        lemma_whole_all(m, lost, todo.drop_last());
        lemma_whole_taken(all_taken(m, lost, todo.drop_last()), lost, todo.last());
    }
}

/// A step that is taken again after others need not be taken before them.
proof fn lemma_overridden(m: Map<Spot, Link>, lost: Spot, o: OpModel, todo: Seq<OpModel>)
    requires
        whole(m),
        lost is Loose,
        m.dom().contains(lost),
    ensures
        taken(all_taken(taken(m, lost, o), lost, todo), lost, o) == taken(
            all_taken(m, lost, todo),
            lost,
            o,
        ),
    decreases todo.len(),
{
    lemma_whole_taken(m, lost, o);
    if todo.len() == 0 {
        law_later_step_overrides(m, lost, o, o);
    } else {
        let before = todo.drop_last();
        let p = todo.last();
        let a = all_taken(taken(m, lost, o), lost, before);
        let b = all_taken(m, lost, before);
        lemma_whole_all(taken(m, lost, o), lost, before);
        lemma_whole_all(m, lost, before);
        lemma_overridden(m, lost, o, before);
        law_later_step_overrides(a, lost, o, p);
        law_later_step_overrides(b, lost, o, p);
    }
}

/// Taking steps a second time changes nothing.
pub proof fn law_steps_twice_are_steps_once(m: Map<Spot, Link>, lost: Spot, todo: Seq<OpModel>)
    requires
        whole(m),
        lost is Loose,
        m.dom().contains(lost),
    ensures
        all_taken(all_taken(m, lost, todo), lost, todo) == all_taken(m, lost, todo),
    decreases todo.len(),
{
    if todo.len() > 0 {
        let before = todo.drop_last();
        let o = todo.last();
        let a = all_taken(m, lost, before);
        lemma_whole_all(m, lost, before);
        lemma_overridden(a, lost, o, before);
        law_steps_twice_are_steps_once(m, lost, before);
    }
}

} // verus!
