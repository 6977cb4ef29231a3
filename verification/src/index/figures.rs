//! Sizes and times of the entries.

use crate::index::model;
use crate::index::model::Volume;
use crate::text;
use crate::types;
use crate::types::{EntryIdx, Frn, NIL};
use crate::wtf8;
use vstd::prelude::*;
use vstd::utf8::*;

verus! {

/// The links of a file are entries.
pub(crate) proof fn lemma_links_there(v: Volume, f: Frn, i: EntryIdx)
    requires
        v.ok(),
        v.links(f).contains(i),
    ensures
        v.has(i as int),
        v.head(f) == Some(v.links(f)[0]),
{
    let r = types::record_of(f.0);
    let c = v.chains[r];
    assert(v.chain_ok(r, c));
    let k = choose|k: int| 0 <= k < c.len() && c[k] == i;
    assert(v.has(c[k] as int));
}

/// Sizes and times that were read replace those that were known before, on
/// each of the entries, and those that were not read stay. Nothing else of an
/// entry changes, and no other entry changes at all.
pub proof fn law_what_was_read_replaces_what_was_known(
    v: Volume,
    c: Seq<EntryIdx>,
    size: Option<u64>,
    mtime: Option<i64>,
    i: EntryIdx,
)
    requires
        i < v.slots.len(),
        forall|k: int| 0 <= k < c.len() ==> v.has(#[trigger] c[k] as int),
    ensures
        ({
            let w = v.measured(c, size, mtime);
            &&& w.slots.len() == v.slots.len()
            &&& w.has(i as int) == v.has(i as int)
            &&& c.contains(i) && size is Some ==> w.ent(i).size == size->0
            &&& c.contains(i) && mtime is Some ==> w.ent(i).mtime == mtime->0
            &&& v.has(i as int) && (!c.contains(i) || size is None) ==> w.ent(i).size == v.ent(
                i,
            ).size
            &&& v.has(i as int) && (!c.contains(i) || mtime is None) ==> w.ent(i).mtime == v.ent(
                i,
            ).mtime
            &&& v.has(i as int) ==> {
                &&& w.ent(i).frn == v.ent(i).frn
                &&& w.ent(i).parent == v.ent(i).parent
                &&& w.ent(i).name == v.ent(i).name
                &&& w.ent(i).lossy == v.ent(i).lossy
                &&& w.ent(i).dir == v.ent(i).dir
                &&& w.ent(i).placeholder == v.ent(i).placeholder
            }
            &&& w.chains == v.chains
            &&& w.free == v.free
            &&& w.detached == v.detached
            &&& w.root == v.root
            &&& w.lost_found == v.lost_found
            &&& w.placeholders == v.placeholders
            &&& w.generation == v.generation
            &&& w.stats == v.stats
        }),
{
    if c.contains(i) {
        let k = choose|k: int| 0 <= k < c.len() && c[k] == i;
        assert(v.has(c[k] as int));
    }
}

/// What was read last is what is known: what was read before it leaves no
/// trace.
pub proof fn law_the_last_reading_counts(
    v: Volume,
    c: Seq<EntryIdx>,
    size: u64,
    mtime: i64,
    last_size: u64,
    last_mtime: i64,
)
    ensures
        v.measured(c, Some(size), Some(mtime)).measured(c, Some(last_size), Some(last_mtime))
            == v.measured(c, Some(last_size), Some(last_mtime)),
{
    assert(v.measured(c, Some(size), Some(mtime)).measured(c, Some(last_size), Some(last_mtime))
        =~= v.measured(c, Some(last_size), Some(last_mtime)));
}

/// A file that is seen under another name keeps its size and time, and so does
/// every other entry; a file that was not known has none yet.
pub proof fn law_names_do_not_touch_sizes(
    v: Volume,
    f: Frn,
    parent: Frn,
    name: Seq<u8>,
    lossy: bool,
    dir: bool,
    h: EntryIdx,
)
    requires
        v.head(f) == Some(h),
        v.head(parent) is Some,
        v.has(h as int),
    ensures
        ({
            let w = v.upserted(f, parent, name, lossy, dir).0;
            &&& w.slots.len() == v.slots.len()
            &&& w.ent(h).size == v.ent(h).size
            &&& w.ent(h).mtime == v.ent(h).mtime
            &&& w.ent(h).frn == f
            &&& forall|i: int|
                0 <= i < v.slots.len() && i != h ==> #[trigger] w.slots[i] == v.slots[i]
            &&& v.links(f).len() > 1 ==> w.slots[h as int] == v.slots[h as int]
        }),
{
}

/// An index that is new holds the root directory, which has no name, and the
/// directory of what was lost, `$LostFound`, and nothing else. A directory that
/// stands in is called `$Placeholder`. Sizes and times of new entries are not
/// known.
pub proof fn law_a_new_index(root: Frn)
    ensures
        ({
            let v = model::new_volume(root);
            &&& v.ok()
            &&& v.slots.len() == 2
            &&& v.head(root) == Some(0u32)
            &&& v.root == 0
            &&& v.lost_found == 1
            &&& v.ent(0).frn == root
            &&& v.ent(0).name.len() == 0
            &&& v.ent(0).dir && v.ent(1).dir
            &&& v.ent(0).parent == NIL && v.ent(1).parent == NIL
            &&& v.ent(1).name == encode_utf8("$LostFound"@)
            &&& v.chains.dom() == set![types::record_of(root.0)]
            &&& v.detached == Set::<EntryIdx>::empty()
            &&& v.generation == 0 && v.placeholders == 0
        }),
        model::placeholder_name() == encode_utf8("$Placeholder"@),
{
    let v = model::new_volume(root);
    let r = types::record_of(root.0);
    assert(v.chains[r] == seq![0u32]);
    assert(seq![0u32].no_duplicates());
    assert(v.has(0) && v.has(1));
    assert(v.chain_ok(r, v.chains[r]));
    assert(v.chains.dom() =~= set![r]);
    reveal_strlit("$LostFound");
    reveal_strlit("$Placeholder");
    lemma_ascii("$LostFound"@);
    lemma_ascii("$Placeholder"@);
    assert(model::lost_found_name() =~= encode_utf8("$LostFound"@));
    assert(model::placeholder_name() =~= encode_utf8("$Placeholder"@));
}

proof fn lemma_ascii(s: Seq<char>)
    requires
        forall|k: int| 0 <= k < s.len() ==> (#[trigger] s[k] as u32) < 0x80,
    ensures
        encode_utf8(s).len() == s.len(),
        forall|k: int| 0 <= k < s.len() ==> #[trigger] encode_utf8(s)[k] == (s[k] as u32) as u8,
{
    text::lemma_text_bytes(s);
    wtf8::lemma_ascii_bytes(text::char_points(s));
}

} // verus!
