//! Small vectors that live on the stack until they grow.

use smallvec::SmallVec;
use vstd::prelude::*;

verus! {

/// A run of characters in a `smallvec::SmallVec`.
#[verifier::external_body]
pub struct CharBuf {
    items: SmallVec<[char; 256]>,
}

/// The items of a character buffer, in order.
pub uninterp spec fn chars_of(buf: CharBuf) -> Seq<char>;

/// `SmallVec::new`: an empty buffer.
#[verifier::external_body]
pub(crate) fn new_chars() -> (buf: CharBuf)
    ensures
        chars_of(buf) == Seq::<char>::empty(),
{
    CharBuf { items: SmallVec::new() }
}

/// `SmallVec::push`: the item goes behind the others.
#[verifier::external_body]
pub(crate) fn push_char(buf: &mut CharBuf, c: char)
    ensures
        chars_of(*final(buf)) == chars_of(*old(buf)).push(c),
{
    buf.items.push(c)
}

/// `SmallVec::as_slice`: the items, in order.
#[verifier::external_body]
pub(crate) fn char_slice(buf: &CharBuf) -> (s: &[char])
    ensures
        s@ == chars_of(*buf),
{
    buf.items.as_slice()
}

/// `SmallVec::clear`: nothing is left.
#[verifier::external_body]
pub(crate) fn clear_chars(buf: &mut CharBuf)
    ensures
        chars_of(*final(buf)) == Seq::<char>::empty(),
{
    buf.items.clear()
}

/// A reusable scratch of decoded code points in a `smallvec::SmallVec`, so
/// that a wildcard scan does not allocate for each candidate.
#[verifier::external_body]
pub struct CodePointBuf {
    items: SmallVec<[u32; 256]>,
}

/// The items of a code point buffer, in order.
pub uninterp spec fn points_of(buf: CodePointBuf) -> Seq<u32>;

/// `SmallVec::new`: an empty buffer.
#[verifier::external_body]
fn new_points() -> (buf: CodePointBuf)
    ensures
        points_of(buf) == Seq::<u32>::empty(),
{
    CodePointBuf { items: SmallVec::new() }
}

/// `SmallVec::push`: the item goes behind the others.
#[verifier::external_body]
pub(crate) fn push_point(buf: &mut CodePointBuf, cp: u32)
    ensures
        points_of(*final(buf)) == points_of(*old(buf)).push(cp),
{
    buf.items.push(cp)
}

/// `SmallVec::as_slice`: the items, in order.
#[verifier::external_body]
pub(crate) fn point_slice(buf: &CodePointBuf) -> (s: &[u32])
    ensures
        s@ == points_of(*buf),
{
    buf.items.as_slice()
}

/// `SmallVec::clear`: nothing is left.
#[verifier::external_body]
pub(crate) fn clear_points(buf: &mut CodePointBuf)
    ensures
        points_of(*final(buf)) == Seq::<u32>::empty(),
{
    buf.items.clear()
}

impl CodePointBuf {
    /// An empty buffer.
    pub fn new() -> (buf: CodePointBuf)
        ensures
            points_of(buf) == Seq::<u32>::empty(),
    {
        new_points()
    }
}

/// A list of entry numbers in a `smallvec::SmallVec`.
#[verifier::external_body]
pub struct IndexBuf {
    items: SmallVec<[u32; 32]>,
}

/// The items of a list of entry numbers, in order.
pub uninterp spec fn indices_of(buf: IndexBuf) -> Seq<u32>;

/// `SmallVec::new`: an empty list.
#[verifier::external_body]
pub(crate) fn new_indices() -> (buf: IndexBuf)
    ensures
        indices_of(buf) == Seq::<u32>::empty(),
{
    IndexBuf { items: SmallVec::new() }
}

/// `SmallVec::push`: the item goes behind the others.
#[verifier::external_body]
pub(crate) fn push_index(buf: &mut IndexBuf, idx: u32)
    ensures
        indices_of(*final(buf)) == indices_of(*old(buf)).push(idx),
{
    buf.items.push(idx)
}

/// `SmallVec::as_slice`: the items, in order.
#[verifier::external_body]
pub(crate) fn index_slice(buf: &IndexBuf) -> (s: &[u32])
    ensures
        s@ == indices_of(*buf),
{
    buf.items.as_slice()
}

} // verus!
