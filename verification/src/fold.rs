//! Case folding for case-insensitive matching.
//!
//! ASCII bytes fold by themselves. Other names are decomposed canonically,
//! each scalar is lowercased one to one, and the result is recomposed, so that
//! a name folds the same whether it arrived composed or decomposed while
//! accents are kept. Unpaired surrogates pass through unchanged. Input and
//! output are WTF-8.

use crate::buffers;
use crate::text;
use crate::wtf8;

use unicode_normalization::char::decompose_canonical;
use unicode_normalization::UnicodeNormalization;
use vstd::prelude::*;
use vstd::utf8::*;

verus! {

/// The canonical decomposition of a character.
pub uninterp spec fn decomposition(c: char) -> Seq<char>;

/// The characters in normalization form C.
pub uninterp spec fn composition(chars: Seq<char>) -> Seq<char>;

/// The first character of a character's lowercase mapping.
pub uninterp spec fn lowercase(c: char) -> char;

/// `unicode_normalization::char::decompose_canonical`: the characters it
/// emits, in order. An ASCII character never decomposes.
#[verifier::external_body]
fn decompose(c: char) -> (parts: Vec<char>)
    ensures
        parts@ == decomposition(c),
        (c as u32) < 0x80 ==> parts@ == seq![c],
{
    let mut parts = Vec::new();
    decompose_canonical(c, |d| parts.push(d));
    parts
}

/// `unicode_normalization::UnicodeNormalization::nfc` on a run of characters.
#[verifier::external_body]
fn compose(run: &[char]) -> (composed: Vec<char>)
    ensures
        composed@ == composition(run@),
{
    run.iter().copied().nfc().collect()
}

/// `char::to_lowercase`, of whose characters the first is taken; the mapping
/// holds one character or more.
#[verifier::external_body]
fn lower_char(c: char) -> (lower: char)
    ensures
        lower == lowercase(c),
{
    c.to_lowercase().next().unwrap_or(c)
}

pub open spec fn is_ascii_bytes(bytes: Seq<u8>) -> bool {
    forall|k: int| 0 <= k < bytes.len() ==> bytes[k] < 0x80
}

/// The lowercase form of an ASCII byte.
pub open spec fn ascii_lower(b: u8) -> u8 {
    if 0x41 <= b <= 0x5A {
        (b + 0x20) as u8
    } else {
        b
    }
}

pub open spec fn ascii_fold(bytes: Seq<u8>) -> Seq<u8> {
    bytes.map_values(|b: u8| ascii_lower(b))
}

/// A character's decomposition, lowercased.
pub open spec fn lowered(c: char) -> Seq<char> {
    decomposition(c).map_values(|d: char| lowercase(d))
}

/// The bytes of a run of lowered characters after recomposition.
pub open spec fn run_bytes(run: Seq<char>) -> Seq<u8> {
    if run.len() == 0 {
        seq![]
    } else {
        wtf8::cps_bytes(text::char_points(composition(run)))
    }
}

/// The folded bytes of code points, given the run collected so far: runs of
/// scalar values are recomposed as a whole, surrogates separate them.
pub open spec fn fold_points(cps: Seq<u32>, run: Seq<char>) -> Seq<u8>
    decreases cps.len(),
{
    if cps.len() == 0 {
        run_bytes(run)
    } else if is_scalar(cps[0]) {
        fold_points(cps.subrange(1, cps.len() as int), run + lowered(cps[0] as char))
    } else {
        run_bytes(run) + wtf8::cp_bytes(cps[0]) + fold_points(
            cps.subrange(1, cps.len() as int),
            seq![],
        )
    }
}

/// The folded form of a name.
pub open spec fn folded(bytes: Seq<u8>) -> Seq<u8> {
    if is_ascii_bytes(bytes) {
        ascii_fold(bytes)
    } else {
        fold_points(wtf8::decode(bytes), seq![])
    }
}

/// Every byte is below 0x80.
pub fn all_ascii(bytes: &[u8]) -> (r: bool)
    ensures
        r == is_ascii_bytes(bytes@),
{
    let mut i: usize = 0;
    while i < bytes.len()
        invariant
            i <= bytes.len(),
            forall|k: int| 0 <= k < i ==> bytes@[k] < 0x80,
        decreases bytes.len() - i,
    {
        if bytes[i] >= 0x80 {
            return false;
        }
        i = i + 1;
    }
    true
}

/// The lowercase form of an ASCII byte; any other byte unchanged.
pub fn lower_byte(b: u8) -> (r: u8)
    ensures
        r == ascii_lower(b),
{
    if 0x41 <= b && b <= 0x5A {
        b + 0x20
    } else {
        b
    }
}

/// Folds `bytes` (WTF-8) into `out` (WTF-8).
pub fn fold_into(bytes: &[u8], out: &mut Vec<u8>)
    ensures
        final(out)@ == old(out)@ + folded(bytes@),
{
    if all_ascii(bytes) {
        out.reserve(bytes.len());
        let mut i: usize = 0;
        while i < bytes.len()
            invariant
                i <= bytes.len(),
                out@ == old(out)@ + ascii_fold(bytes@).subrange(0, i as int),
            decreases bytes.len() - i,
        {
            out.push(lower_byte(bytes[i]));
            i = i + 1;
            assert(out@ =~= old(out)@ + ascii_fold(bytes@).subrange(0, i as int));
        }
        assert(ascii_fold(bytes@).subrange(0, i as int) =~= ascii_fold(bytes@));
        return;
    }
    fold_non_ascii(bytes, out);
}

/// The path for names that are not all ASCII.
fn fold_non_ascii(bytes: &[u8], out: &mut Vec<u8>)
    ensures
        final(out)@ == old(out)@ + fold_points(wtf8::decode(bytes@), seq![]),
{
    let mut run: buffers::CharBuf = buffers::new_chars();
    let mut points = wtf8::CodePoints::new(bytes);
    loop
        invariant
            points.wf(),
            points.bytes() == bytes@,
            0 <= points.pos() <= bytes@.len(),
            out@ + fold_points(points.rest(), buffers::chars_of(run)) == old(out)@ + fold_points(
                wtf8::decode(bytes@),
                seq![],
            ),
        ensures
            out@ + run_bytes(buffers::chars_of(run)) == old(out)@ + fold_points(wtf8::decode(bytes@), seq![]),
        decreases bytes@.len() - points.pos(),
    {
        let ghost before = points.rest();
        match points.next() {
            None => {
                break;
            },
            Some(cp) => {
                assert(before.subrange(1, before.len() as int) =~= points.rest());
                match char::from_u32(cp) {
                    Some(c) => {
                        lower_decomposed(c, &mut run);
                    },
                    None => {
                        let ghost start = out@;
                        let ghost r = buffers::chars_of(run);
                        compose_into(&mut run, out);
                        wtf8::encode_code_point(cp, out);
                        assert(out@ + fold_points(points.rest(), seq![]) =~= start + (run_bytes(r)
                            + wtf8::cp_bytes(cp) + fold_points(points.rest(), seq![])));
                    },
                }
            },
        }
    }
    compose_into(&mut run, out);
}

/// Appends the lowered decomposition of `c` to the run.
fn lower_decomposed(c: char, run: &mut buffers::CharBuf)
    ensures
        buffers::chars_of(*final(run)) == buffers::chars_of(*old(run)) + lowered(c),
{
    let parts = decompose(c);
    let mut i: usize = 0;
    assert(buffers::chars_of(*old(run)) + lowered(c).subrange(0, 0) =~= buffers::chars_of(*old(run)));
    while i < parts.len()
        invariant
            i <= parts.len(),
            parts@ == decomposition(c),
            buffers::chars_of(*run) == buffers::chars_of(*old(run)) + lowered(c).subrange(0, i as int),
        decreases parts.len() - i,
    {
        let d = lower_char(parts[i]);
        buffers::push_char(run, d);
        i = i + 1;
        assert(buffers::chars_of(*run) =~= buffers::chars_of(*old(run)) + lowered(c).subrange(0, i as int));
    }
    assert(lowered(c).subrange(0, i as int) =~= lowered(c));
}

/// Composes the run canonically into `out` as WTF-8 and clears it.
fn compose_into(run: &mut buffers::CharBuf, out: &mut Vec<u8>)
    ensures
        final(out)@ == old(out)@ + run_bytes(buffers::chars_of(*old(run))),
        buffers::chars_of(*final(run)) == Seq::<char>::empty(),
{
    let chars = buffers::char_slice(run);
    if chars.len() == 0 {
        assert(chars@ =~= Seq::<char>::empty());
        assert(out@ =~= old(out)@ + run_bytes(chars@));
        return;
    }
    let composed = compose(chars);
    text::push_chars(composed.as_slice(), out);
    buffers::clear_chars(run);
}

/// The folded form of a name.
pub fn fold(bytes: &[u8]) -> (out: Vec<u8>)
    ensures
        out@ == folded(bytes@),
{
    let mut out: Vec<u8> = Vec::with_capacity(bytes.len());
    fold_into(bytes, &mut out);
    assert(out@ =~= folded(bytes@));
    out
}

/// Folding an ASCII name keeps its length, gives an ASCII name and is
/// idempotent.
pub proof fn law_ascii_fold_is_idempotent(bytes: Seq<u8>)
    requires
        is_ascii_bytes(bytes),
    ensures
        is_ascii_bytes(folded(bytes)),
        folded(bytes).len() == bytes.len(),
        folded(folded(bytes)) == folded(bytes),
{
    assert(ascii_fold(ascii_fold(bytes)) =~= ascii_fold(bytes));
}

/// Two ASCII names fold alike exactly when they differ in letter case alone.
pub proof fn law_ascii_fold_equates_case_only(a: Seq<u8>, b: Seq<u8>)
    requires
        is_ascii_bytes(a),
        is_ascii_bytes(b),
    ensures
        folded(a) == folded(b) <==> a.len() == b.len() && forall|k: int|
            0 <= k < a.len() ==> ascii_lower(#[trigger] a[k]) == ascii_lower(b[k]),
{
    assert(ascii_fold(a).len() == a.len() && ascii_fold(b).len() == b.len());
    if folded(a) == folded(b) {
        assert forall|k: int| 0 <= k < a.len() implies ascii_lower(#[trigger] a[k]) == ascii_lower(
            b[k],
        ) by {
            assert(ascii_fold(a)[k] == ascii_fold(b)[k]);
        }
    } else if a.len() == b.len() && forall|k: int|
        0 <= k < a.len() ==> ascii_lower(#[trigger] a[k]) == ascii_lower(b[k]) {
        assert(ascii_fold(a) =~= ascii_fold(b));
    }
}

/// The lowered decompositions of the characters of a text, one after another.
pub open spec fn lowered_text(chars: Seq<char>) -> Seq<char>
    decreases chars.len(),
{
    if chars.len() == 0 {
        seq![]
    } else {
        lowered(chars[0]) + lowered_text(chars.drop_first())
    }
}

proof fn lemma_fold_text(chars: Seq<char>, run: Seq<char>)
    ensures
        fold_points(text::char_points(chars), run) == run_bytes(run + lowered_text(chars)),
    decreases chars.len(),
{
    if chars.len() == 0 {
        assert(text::char_points(chars) =~= Seq::<u32>::empty());
        assert(run + lowered_text(chars) =~= run);
    } else {
        let c = chars[0];
        char_is_scalar(c);
        char_u32_cast(c, c as u32);
        assert(text::char_points(chars).subrange(1, chars.len() as int) =~= text::char_points(
            chars.drop_first(),
        ));
        lemma_fold_text(chars.drop_first(), run + lowered(c));
        assert(run + lowered(c) + lowered_text(chars.drop_first()) =~= run + lowered_text(chars));
    }
}

/// The folded form of a text that is not all ASCII depends only on its
/// characters' decompositions: a composed and a decomposed spelling of the
/// same text fold alike.
pub proof fn law_normalization_forms_fold_alike(a: Seq<char>, b: Seq<char>)
    requires
        !is_ascii_bytes(encode_utf8(a)),
        !is_ascii_bytes(encode_utf8(b)),
        lowered_text(a) == lowered_text(b),
    ensures
        folded(encode_utf8(a)) == folded(encode_utf8(b)),
{
    text::lemma_text_points(a);
    text::lemma_text_points(b);
    lemma_fold_text(a, seq![]);
    lemma_fold_text(b, seq![]);
}

/// A lone surrogate passes through folding unchanged and separates what
/// stands before it from what stands behind it.
pub proof fn law_surrogate_passes_through(before: Seq<char>, surrogate: u32, behind: Seq<char>)
    requires
        0xD800 <= surrogate < 0xE000,
    ensures
        fold_points(text::char_points(before) + seq![surrogate] + text::char_points(behind), seq![])
            == run_bytes(lowered_text(before)) + wtf8::cp_bytes(surrogate) + run_bytes(
            lowered_text(behind),
        ),
{
    lemma_surrogate(before, surrogate, behind, seq![]);
    assert(seq![] + lowered_text(before) =~= lowered_text(before));
}

proof fn lemma_surrogate(before: Seq<char>, surrogate: u32, behind: Seq<char>, run: Seq<char>)
    requires
        0xD800 <= surrogate < 0xE000,
    ensures
        fold_points(text::char_points(before) + seq![surrogate] + text::char_points(behind), run) == run_bytes(
            run + lowered_text(before),
        ) + wtf8::cp_bytes(surrogate) + run_bytes(lowered_text(behind)),
    decreases before.len(),
{
    let cps = text::char_points(before) + seq![surrogate] + text::char_points(behind);
    let tail = cps.subrange(1, cps.len() as int);
    if before.len() == 0 {
        assert(tail =~= text::char_points(behind));
        lemma_fold_text(behind, seq![]);
        assert(seq![] + lowered_text(behind) =~= lowered_text(behind));
        assert(run + lowered_text(before) =~= run);
    } else {
        let c = before[0];
        char_is_scalar(c);
        char_u32_cast(c, c as u32);
        assert(tail =~= text::char_points(before.drop_first()) + seq![surrogate] + text::char_points(behind));
        lemma_surrogate(before.drop_first(), surrogate, behind, run + lowered(c));
        assert(run + lowered(c) + lowered_text(before.drop_first()) =~= run + lowered_text(before));
    }
}

/// On ASCII the tables do as ASCII folding does: nothing decomposes or
/// composes, and only letters have another lowercase form.
pub open spec fn plain_on_ascii() -> bool {
    &&& forall|c: char| (c as u32) < 0x80 ==> #[trigger] lowered(c) == seq![text::lower(c)]
    &&& forall|s: Seq<char>| is_ascii_chars(s) ==> #[trigger] composition(s) == s
}

proof fn lemma_ascii_char(c: char)
    ensures
        (c as u32) < 0x80 <==> '\0' <= c <= '\u{7f}',
{
}

proof fn lemma_lowered_ascii(chars: Seq<char>)
    requires
        plain_on_ascii(),
        is_ascii_chars(chars),
    ensures
        lowered_text(chars) == text::lower_text(chars),
    decreases chars.len(),
{
    if chars.len() > 0 {
        let rest = chars.drop_first();
        assert('\0' <= chars[0] <= '\u{7f}');
        assert forall|i: int| 0 <= i < rest.len() implies '\0' <= #[trigger] rest[i]
            <= '\u{7f}' by {
            assert(rest[i] == chars[i + 1]);
        }
        lemma_lowered_ascii(rest);
        assert(lowered(chars[0]) == seq![text::lower(chars[0])]);
        assert(lowered_text(chars) =~= text::lower_text(chars));
    } else {
        assert(lowered_text(chars) =~= text::lower_text(chars));
    }
}

/// The code points of a run of lowered characters after recomposition.
pub open spec fn run_points(run: Seq<char>) -> Seq<u32> {
    if run.len() == 0 {
        seq![]
    } else {
        text::char_points(composition(run))
    }
}

/// The code points of what folding gives, given the run collected so far.
pub open spec fn points_folded(cps: Seq<u32>, run: Seq<char>) -> Seq<u32>
    decreases cps.len(),
{
    if cps.len() == 0 {
        run_points(run)
    } else if is_scalar(cps[0]) {
        points_folded(cps.subrange(1, cps.len() as int), run + lowered(cps[0] as char))
    } else {
        run_points(run) + seq![cps[0]] + points_folded(cps.subrange(1, cps.len() as int), seq![])
    }
}

/// The tables give the composed run back from its own lowered decomposition.
pub open spec fn settled(run: Seq<char>) -> bool {
    composition(lowered_text(composition(run))) == composition(run)
}

/// Every run between surrogates is settled, given the run collected so far.
pub open spec fn all_settled(cps: Seq<u32>, run: Seq<char>) -> bool
    decreases cps.len(),
{
    if cps.len() == 0 {
        settled(run)
    } else if is_scalar(cps[0]) {
        all_settled(cps.subrange(1, cps.len() as int), run + lowered(cps[0] as char))
    } else {
        settled(run) && all_settled(cps.subrange(1, cps.len() as int), seq![])
    }
}

/// The surrogates among code points.
pub open spec fn surrogates(cps: Seq<u32>) -> Seq<u32>
    decreases cps.len(),
{
    if cps.len() == 0 {
        seq![]
    } else {
        (if is_scalar(cps[0]) {
            seq![]
        } else {
            seq![cps[0]]
        }) + surrogates(cps.subrange(1, cps.len() as int))
    }
}

proof fn lemma_points_folded(cps: Seq<u32>, run: Seq<char>)
    requires
        forall|k: int| 0 <= k < cps.len() ==> #[trigger] cps[k] <= 0x10FFFF,
    ensures
        fold_points(cps, run) == wtf8::cps_bytes(points_folded(cps, run)),
        forall|k: int|
            0 <= k < points_folded(cps, run).len() ==> #[trigger] points_folded(cps, run)[k]
                <= 0x10FFFF,
    decreases cps.len(),
{
    let out = points_folded(cps, run);
    let front = run_points(run);
    assert forall|k: int| 0 <= k < front.len() implies #[trigger] front[k] <= 0x10FFFF by {
        char_is_scalar(composition(run)[k]);
    }
    if cps.len() > 0 {
        let rest = cps.subrange(1, cps.len() as int);
        assert forall|k: int| 0 <= k < rest.len() implies #[trigger] rest[k] <= 0x10FFFF by {
            assert(rest[k] == cps[k + 1]);
        }
        if is_scalar(cps[0]) {
            lemma_points_folded(rest, run + lowered(cps[0] as char));
        } else {
            lemma_points_folded(rest, seq![]);
            let tail = points_folded(rest, seq![]);
            let one = seq![cps[0]];
            wtf8::lemma_cps_bytes_concat(front + one, tail);
            assert(front + one =~= front.push(cps[0]));
            wtf8::lemma_cps_bytes_push(front, cps[0]);
            assert forall|k: int| 0 <= k < out.len() implies #[trigger] out[k] <= 0x10FFFF by {
                if k < front.len() {
                    assert(out[k] == front[k]);
                } else if k > front.len() {
                    assert(out[k] == tail[k - front.len() - 1]);
                }
            }
        }
    }
}

/// Folding text before other code points.
proof fn lemma_text_before(chars: Seq<char>, run: Seq<char>, rest: Seq<u32>)
    ensures
        points_folded(text::char_points(chars) + rest, run) == points_folded(
            rest,
            run + lowered_text(chars),
        ),
        surrogates(text::char_points(chars) + rest) == surrogates(rest),
    decreases chars.len(),
{
    let cps = text::char_points(chars) + rest;
    if chars.len() == 0 {
        assert(cps =~= rest);
        assert(run + lowered_text(chars) =~= run);
    } else {
        let c = chars[0];
        char_is_scalar(c);
        char_u32_cast(c, c as u32);
        assert(cps.subrange(1, cps.len() as int) =~= text::char_points(chars.drop_first()) + rest);
        lemma_text_before(chars.drop_first(), run + lowered(c), rest);
        assert(run + lowered(c) + lowered_text(chars.drop_first()) =~= run + lowered_text(chars));
        assert(surrogates(cps) =~= surrogates(rest));
    }
}

/// Settled runs come out of folding as they are.
proof fn lemma_run_again(run: Seq<char>, rest: Seq<u32>)
    requires
        plain_on_ascii(),
        settled(run),
        rest.len() > 0 ==> !is_scalar(rest[0]),
    ensures
        points_folded(run_points(run) + rest, seq![]) == run_points(run) + (if rest.len() == 0 {
            seq![]
        } else {
            seq![rest[0]] + points_folded(rest.subrange(1, rest.len() as int), seq![])
        }),
{
    let again = if run.len() == 0 {
        Seq::empty()
    } else {
        lowered_text(composition(run))
    };
    let text = if run.len() == 0 {
        Seq::empty()
    } else {
        composition(run)
    };
    assert(is_ascii_chars(Seq::<char>::empty()));
    assert(composition(Seq::<char>::empty()) == Seq::<char>::empty());
    assert(text::char_points(Seq::<char>::empty()) =~= Seq::<u32>::empty());
    assert(run_points(run) =~= text::char_points(text));
    lemma_text_before(text, seq![], rest);
    assert(seq![] + lowered_text(text) =~= again);
    assert(run_points(again) =~= run_points(run));
    if rest.len() == 0 {
        assert(run_points(run) + seq![] =~= run_points(run));
    } else {
        let tail = points_folded(rest.subrange(1, rest.len() as int), seq![]);
        assert(run_points(run) + seq![rest[0]] + tail =~= run_points(run) + (seq![rest[0]] + tail));
    }
}

proof fn lemma_folded_again(cps: Seq<u32>, run: Seq<char>)
    requires
        plain_on_ascii(),
        all_settled(cps, run),
    ensures
        points_folded(points_folded(cps, run), seq![]) == points_folded(cps, run),
    decreases cps.len(),
{
    if cps.len() == 0 {
        lemma_run_again(run, seq![]);
        assert(run_points(run) + seq![] =~= run_points(run));
    } else {
        let rest = cps.subrange(1, cps.len() as int);
        if is_scalar(cps[0]) {
            lemma_folded_again(rest, run + lowered(cps[0] as char));
        } else {
            lemma_folded_again(rest, seq![]);
            let tail = points_folded(rest, seq![]);
            let behind = seq![cps[0]] + tail;
            assert(behind.subrange(1, behind.len() as int) =~= tail);
            assert(points_folded(cps, run) =~= run_points(run) + behind);
            lemma_run_again(run, behind);
        }
    }
}

proof fn lemma_surrogates_kept(cps: Seq<u32>, run: Seq<char>)
    ensures
        surrogates(points_folded(cps, run)) == surrogates(cps),
    decreases cps.len(),
{
    let text = if run.len() == 0 {
        Seq::empty()
    } else {
        composition(run)
    };
    assert(run_points(run) =~= text::char_points(text));
    if cps.len() == 0 {
        lemma_text_before(text, seq![], seq![]);
        assert(run_points(run) + seq![] =~= run_points(run));
    } else {
        let rest = cps.subrange(1, cps.len() as int);
        if is_scalar(cps[0]) {
            lemma_surrogates_kept(rest, run + lowered(cps[0] as char));
            assert(surrogates(cps) =~= surrogates(rest));
        } else {
            lemma_surrogates_kept(rest, seq![]);
            let tail = points_folded(rest, seq![]);
            let behind = seq![cps[0]] + tail;
            lemma_text_before(text, seq![], behind);
            assert(behind.subrange(1, behind.len() as int) =~= tail);
            assert(points_folded(cps, run) =~= run_points(run) + behind);
        }
    }
}

/// ASCII bytes are their own code points.
proof fn lemma_ascii_points(bytes: Seq<u8>)
    requires
        is_ascii_bytes(bytes),
    ensures
        wtf8::decode(bytes) == bytes.map_values(|b: u8| b as u32),
        surrogates(wtf8::decode(bytes)) == Seq::<u32>::empty(),
{
    let cps = bytes.map_values(|b: u8| b as u32);
    lemma_ascii_spelled(bytes);
    wtf8::law_decode_inverts_encode(cps);
    lemma_no_surrogates(cps);
}

proof fn lemma_ascii_spelled(bytes: Seq<u8>)
    requires
        is_ascii_bytes(bytes),
    ensures
        wtf8::cps_bytes(bytes.map_values(|b: u8| b as u32)) == bytes,
    decreases bytes.len(),
{
    let cps = bytes.map_values(|b: u8| b as u32);
    if bytes.len() == 0 {
        assert(wtf8::cps_bytes(cps) =~= bytes);
    } else {
        let d = bytes.subrange(1, bytes.len() as int);
        assert forall|k: int| 0 <= k < d.len() implies d[k] < 0x80 by {
            assert(d[k] == bytes[k + 1]);
        }
        lemma_ascii_spelled(d);
        assert(bytes[0] < 0x80);
        assert(cps.subrange(1, cps.len() as int) =~= d.map_values(|b: u8| b as u32));
        assert(seq![bytes[0]] + d =~= bytes);
        assert(wtf8::cp_bytes(cps[0]) =~= seq![bytes[0]]);
    }
}

proof fn lemma_no_surrogates(cps: Seq<u32>)
    requires
        forall|k: int| 0 <= k < cps.len() ==> is_scalar(#[trigger] cps[k]),
    ensures
        surrogates(cps) == Seq::<u32>::empty(),
    decreases cps.len(),
{
    if cps.len() > 0 {
        let rest = cps.subrange(1, cps.len() as int);
        assert forall|k: int| 0 <= k < rest.len() implies is_scalar(#[trigger] rest[k]) by {
            assert(rest[k] == cps[k + 1]);
        }
        lemma_no_surrogates(rest);
        assert(is_scalar(cps[0]));
    }
}

/// Unpaired surrogates of a name are in its folded form, all of them and in
/// order.
pub proof fn law_fold_keeps_surrogates(units: Seq<u16>)
    ensures
        surrogates(wtf8::decode(folded(wtf8::wtf8_of_units(units)))) == surrogates(
            wtf8::unit_code_points(units),
        ),
{
    let bytes = wtf8::wtf8_of_units(units);
    let cps = wtf8::unit_code_points(units);
    wtf8::lemma_unit_code_points_in_range(units);
    wtf8::law_decode_inverts_encode(cps);
    if is_ascii_bytes(bytes) {
        law_ascii_fold_is_idempotent(bytes);
        lemma_ascii_points(bytes);
        lemma_ascii_points(folded(bytes));
    } else {
        lemma_points_folded(cps, seq![]);
        wtf8::law_decode_inverts_encode(points_folded(cps, seq![]));
        lemma_surrogates_kept(cps, seq![]);
    }
}

/// Folding a name a second time changes nothing, unpaired surrogates included,
/// wherever the tables give the composed runs between them back from their own
/// lowered decompositions.
pub proof fn law_fold_is_idempotent(units: Seq<u16>)
    requires
        plain_on_ascii(),
        all_settled(wtf8::unit_code_points(units), seq![]),
    ensures
        folded(folded(wtf8::wtf8_of_units(units))) == folded(wtf8::wtf8_of_units(units)),
{
    let bytes = wtf8::wtf8_of_units(units);
    let cps = wtf8::unit_code_points(units);
    wtf8::lemma_unit_code_points_in_range(units);
    wtf8::law_decode_inverts_encode(cps);
    if is_ascii_bytes(bytes) {
        law_ascii_fold_is_idempotent(bytes);
    } else {
        let out = points_folded(cps, seq![]);
        lemma_points_folded(cps, seq![]);
        wtf8::law_decode_inverts_encode(out);
        lemma_folded_again(cps, seq![]);
        lemma_points_folded(out, seq![]);
        if is_ascii_bytes(folded(bytes)) {
            lemma_ascii_again(out, folded(bytes));
        }
    }
}

/// ASCII that folding as other names would not change is not changed by ASCII
/// folding.
proof fn lemma_ascii_again(out: Seq<u32>, bytes: Seq<u8>)
    requires
        plain_on_ascii(),
        is_ascii_bytes(bytes),
        wtf8::decode(bytes) == out,
        points_folded(out, seq![]) == out,
    ensures
        ascii_fold(bytes) == bytes,
{
    lemma_ascii_points(bytes);
    let chars = bytes.map_values(|b: u8| b as char);
    assert forall|i: int| 0 <= i < chars.len() implies '\0' <= #[trigger] chars[i]
        <= '\u{7f}' by {
        assert(bytes[i] < 0x80);
    }
    assert(text::char_points(chars) =~= out) by {
        assert forall|i: int| 0 <= i < chars.len() implies #[trigger] text::char_points(chars)[i]
            == out[i] by {
            assert(bytes[i] < 0x80);
        }
    }
    lemma_text_before(chars, seq![], seq![]);
    assert(text::char_points(chars) + seq![] =~= out);
    lemma_lowered_ascii(chars);
    let low = text::lower_text(chars);
    assert(seq![] + low =~= low);
    assert forall|i: int| 0 <= i < low.len() implies '\0' <= #[trigger] low[i] <= '\u{7f}' by {
        assert('\0' <= chars[i] <= '\u{7f}');
    }
    assert(composition(low) == low);
    assert forall|i: int| 0 <= i < bytes.len() implies ascii_lower(#[trigger] bytes[i])
        == bytes[i] by {
        assert(bytes[i] < 0x80);
        assert(text::char_points(low)[i] == out[i]);
        assert(low[i] as u32 == bytes[i] as u32);
        lemma_ascii_char(low[i]);
        lemma_ascii_char(chars[i]);
    }
    assert(ascii_fold(bytes) =~= bytes);
}

} // verus!
