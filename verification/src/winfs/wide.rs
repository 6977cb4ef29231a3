//! Text of the operating system: UTF-16 that ends at a NUL.

use crate::text;
use crate::wtf8;
use vstd::prelude::*;
use vstd::slice::slice_subrange;

verus! {

/// Where the first NUL is, or the length.
pub open spec fn first_nul(units: Seq<u16>) -> int
    decreases units.len(),
{
    if units.len() == 0 || units[0] == 0 {
        0
    } else {
        1 + first_nul(units.subrange(1, units.len() as int))
    }
}

/// The units before the first NUL.
pub open spec fn before_nul(units: Seq<u16>) -> Seq<u16> {
    units.subrange(0, first_nul(units))
}

/// The text of units; an unpaired surrogate is shown as U+FFFD.
pub open spec fn wide_text(units: Seq<u16>) -> Seq<char> {
    wtf8::unit_code_points(units).map_values(|cp: u32| wtf8::shown_char(cp))
}

/// The texts of a list in which each ends at a NUL and an empty one ends the
/// list.
pub open spec fn multi_texts(units: Seq<u16>) -> Seq<Seq<char>>
    decreases units.len(),
    via multi_texts_shorter
{
    let end = first_nul(units);
    if end == 0 || end >= units.len() {
        Seq::empty()
    } else {
        seq![wide_text(units.subrange(0, end))] + multi_texts(
            units.subrange(end + 1, units.len() as int),
        )
    }
}

#[via_fn]
proof fn multi_texts_shorter(units: Seq<u16>) {
    lemma_first_nul(units);
}

proof fn lemma_first_nul(units: Seq<u16>)
    ensures
        0 <= first_nul(units) <= units.len(),
        first_nul(units) < units.len() ==> units[first_nul(units)] == 0,
        forall|k: int| 0 <= k < first_nul(units) ==> units[k] != 0,
    decreases units.len(),
{
    if units.len() > 0 && units[0] != 0 {
        let rest = units.subrange(1, units.len() as int);
        lemma_first_nul(rest);
        assert forall|k: int| 0 <= k < first_nul(units) implies units[k] != 0 by {
            if k > 0 {
                assert(rest[k - 1] == units[k]);
            }
        }
        if first_nul(units) < units.len() {
            assert(rest[first_nul(rest)] == units[first_nul(units)]);
        }
    }
}

proof fn lemma_first_nul_is(units: Seq<u16>, at: int)
    requires
        0 <= at <= units.len(),
        at < units.len() ==> units[at] == 0,
        forall|k: int| 0 <= k < at ==> units[k] != 0,
    ensures
        first_nul(units) == at,
{
    lemma_first_nul(units);
    let f = first_nul(units);
    if f < at {
        assert(units[f] != 0);
    }
}

/// Where the first NUL is, or the length.
pub fn find_nul(units: &[u16]) -> (at: usize)
    ensures
        at == first_nul(units@),
        at <= units@.len(),
{
    let mut i: usize = 0;
    while i < units.len() && units[i] != 0
        invariant
            i <= units@.len(),
            forall|k: int| 0 <= k < i ==> units@[k] != 0,
        decreases units@.len() - i,
    {
        i = i + 1;
    }
    proof {
        lemma_first_nul_is(units@, i as int);
    }
    i
}

/// The text as UTF-16 with a NUL behind it.
pub fn to_wide_nul(s: &str) -> (units: Vec<u16>)
    ensures
        units@ == wtf8::cps_units(text::char_points(s@)).push(0),
{
    let chars = text::chars(s);
    let bytes = text::utf8_bytes(chars.as_slice());
    proof {
        text::lemma_text_points(s@);
    }
    let mut units = wtf8::to_utf16(bytes.as_slice());
    units.push(0);
    units
}

/// The text of some units.
fn text_of(units: &[u16]) -> (s: String)
    ensures
        s@ == wide_text(units@),
{
    let mut bytes: Vec<u8> = Vec::new();
    let _ = wtf8::from_utf16(units, &mut bytes);
    proof {
        assert(bytes@ =~= wtf8::wtf8_of_units(units@));
        wtf8::lemma_unit_code_points_in_range(units@);
        wtf8::law_decode_inverts_encode(wtf8::unit_code_points(units@));
    }
    wtf8::to_string_lossy(bytes.as_slice())
}

/// The text before the first NUL.
pub fn from_wide_nul(buf: &[u16]) -> (s: String)
    ensures
        s@ == wide_text(before_nul(buf@)),
{
    let end = find_nul(buf);
    text_of(slice_subrange(buf, 0, end))
}

/// The units before the first NUL.
pub fn take_name(buf: &[u16]) -> (units: Vec<u16>)
    ensures
        units@ == before_nul(buf@),
{
    let end = find_nul(buf);
    let mut units: Vec<u16> = Vec::new();
    units.extend_from_slice(slice_subrange(buf, 0, end));
    assert(units@ =~= before_nul(buf@));
    units
}

pub open spec fn texts_of(v: Seq<String>) -> Seq<Seq<char>> {
    v.map_values(|s: String| s@)
}

/// The texts of a list in which each ends at a NUL and an empty one ends the
/// list.
pub fn split_multi_sz(buf: &[u16]) -> (out: Vec<String>)
    ensures
        texts_of(out@) == multi_texts(buf@),
{
    let mut out: Vec<String> = Vec::new();
    let mut start: usize = 0;
    let n = buf.len();
    proof {
        assert(buf@.subrange(0, n as int) =~= buf@);
        assert(texts_of(out@) + multi_texts(buf@) =~= multi_texts(buf@));
    }
    while start < n
        invariant_except_break
            start <= n,
            n == buf@.len(),
            texts_of(out@) + multi_texts(buf@.subrange(start as int, n as int)) == multi_texts(buf@),
        ensures
            texts_of(out@) == multi_texts(buf@),
        decreases n - start,
    {
        let rest = slice_subrange(buf, start, n);
        let end = find_nul(rest);
        if end == 0 || end == rest.len() {
            assert(texts_of(out@) + Seq::<Seq<char>>::empty() =~= texts_of(out@));
            break;
        }
        let ghost before = out@;
        out.push(text_of(slice_subrange(rest, 0, end)));
        proof {
            let one = wide_text(rest@.subrange(0, end as int));
            let behind = rest@.subrange(end + 1, rest@.len() as int);
            assert(behind =~= buf@.subrange(start + end + 1, n as int));
            assert(texts_of(out@) =~= texts_of(before).push(one));
            assert(texts_of(before) + (seq![one] + multi_texts(behind)) =~= texts_of(out@)
                + multi_texts(behind));
        }
        start = start + end + 1;
        proof {
            if start >= n {
                let last = buf@.subrange(start as int, n as int);
                assert(first_nul(last) == 0);
                assert(texts_of(out@) + multi_texts(last) =~= texts_of(out@));
            }
        }
    }
    out
}

/// The text ends before the first NUL, whatever is behind it.
pub proof fn law_text_ends_at_the_nul(name: Seq<u16>, rest: Seq<u16>)
    requires
        forall|k: int| 0 <= k < name.len() ==> #[trigger] name[k] != 0,
    ensures
        before_nul(name + seq![0u16] + rest) == name,
        before_nul(name) == name,
{
    let s = name + seq![0u16] + rest;
    assert forall|k: int| 0 <= k < name.len() implies s[k] != 0 by {
        assert(name[k] != 0);
    }
    assert(s[name.len() as int] == 0);
    lemma_first_nul_is(s, name.len() as int);
    assert(s.subrange(0, name.len() as int) =~= name);
    assert forall|k: int| 0 <= k < name.len() implies name[k] != 0 by {}
    lemma_first_nul_is(name, name.len() as int);
    assert(name.subrange(0, name.len() as int) =~= name);
}

/// A list is its texts, each with a NUL behind it, up to an empty one.
pub proof fn law_lists_end_at_an_empty_text(name: Seq<u16>, rest: Seq<u16>)
    requires
        name.len() > 0,
        forall|k: int| 0 <= k < name.len() ==> #[trigger] name[k] != 0,
    ensures
        multi_texts(name + seq![0u16] + rest) == seq![wide_text(name)] + multi_texts(rest),
        multi_texts(seq![0u16] + rest).len() == 0,
        multi_texts(Seq::empty()).len() == 0,
{
    let s = name + seq![0u16] + rest;
    law_text_ends_at_the_nul(name, rest);
    assert forall|k: int| 0 <= k < name.len() implies s[k] != 0 by {
        assert(name[k] != 0);
    }
    assert(s[name.len() as int] == 0);
    lemma_first_nul_is(s, name.len() as int);
    assert(s.subrange(0, name.len() as int) =~= name);
    assert(s.subrange(name.len() as int + 1, s.len() as int) =~= rest);
    assert((seq![0u16] + rest)[0] == 0);
    lemma_first_nul_is(seq![0u16] + rest, 0);
}

} // verus!
