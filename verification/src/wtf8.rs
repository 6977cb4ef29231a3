//! WTF-8 encoding for NTFS names.
//!
//! NTFS names are arbitrary sequences of `u16` code units, and unpaired
//! surrogates occur in the wild. WTF-8 is UTF-8 extended to encode lone
//! surrogate code points as their three-byte sequences, which makes the
//! conversion from UTF-16 total and lossless. Valid Unicode names give plain
//! UTF-8 bytes.

use crate::text;
use vstd::prelude::*;
use vstd::utf8::*;

verus! {

pub open spec fn is_high(u: u16) -> bool {
    0xD800 <= u < 0xDC00
}

pub open spec fn is_low(u: u16) -> bool {
    0xDC00 <= u < 0xE000
}

/// The code point of a surrogate pair.
pub open spec fn pair_code_point(hi: u16, lo: u16) -> u32 {
    (0x10000 + (hi - 0xD800) * 0x400 + (lo - 0xDC00)) as u32
}

/// The code points of a sequence of UTF-16 code units: a high surrogate and
/// the low surrogate after it are one, every other unit stands for itself.
pub open spec fn unit_code_points(units: Seq<u16>) -> Seq<u32>
    decreases units.len(),
{
    if units.len() == 0 {
        seq![]
    } else if units.len() >= 2 && is_high(units[0]) && is_low(units[1]) {
        seq![pair_code_point(units[0], units[1])] + unit_code_points(
            units.subrange(2, units.len() as int),
        )
    } else {
        seq![units[0] as u32] + unit_code_points(units.subrange(1, units.len() as int))
    }
}

/// The unit at `i` is a surrogate without its partner.
pub open spec fn lone_at(units: Seq<u16>, i: int) -> bool {
    ||| is_high(units[i]) && !(i + 1 < units.len() && is_low(units[i + 1]))
    ||| is_low(units[i]) && !(i > 0 && is_high(units[i - 1]))
}

/// Some unit is an unpaired surrogate.
pub open spec fn has_lone(units: Seq<u16>) -> bool {
    exists|i: int| 0 <= i < units.len() && #[trigger] lone_at(units, i)
}

/// The bytes of one code point, surrogates included.
pub open spec fn cp_bytes(cp: u32) -> Seq<u8> {
    if cp < 0x80 {
        seq![cp as u8]
    } else if cp < 0x800 {
        seq![(0xC0 + cp / 0x40) as u8, (0x80 + cp % 0x40) as u8]
    } else if cp < 0x10000 {
        seq![
            (0xE0 + cp / 0x1000) as u8,
            (0x80 + cp / 0x40 % 0x40) as u8,
            (0x80 + cp % 0x40) as u8,
        ]
    } else {
        seq![
            (0xF0 + cp / 0x40000) as u8,
            (0x80 + cp / 0x1000 % 0x40) as u8,
            (0x80 + cp / 0x40 % 0x40) as u8,
            (0x80 + cp % 0x40) as u8,
        ]
    }
}

/// The bytes of a sequence of code points.
pub open spec fn cps_bytes(cps: Seq<u32>) -> Seq<u8>
    decreases cps.len(),
{
    if cps.len() == 0 {
        seq![]
    } else {
        cp_bytes(cps[0]) + cps_bytes(cps.subrange(1, cps.len() as int))
    }
}

/// The WTF-8 bytes of a sequence of UTF-16 code units.
pub open spec fn wtf8_of_units(units: Seq<u16>) -> Seq<u8> {
    cps_bytes(unit_code_points(units))
}

/// The bytes from `i` on begin with the encoding of the code point `cp`.
pub open spec fn cp_at(bytes: Seq<u8>, i: int, cp: u32) -> bool {
    &&& cp <= 0x10FFFF
    &&& 0 <= i
    &&& i + cp_bytes(cp).len() <= bytes.len()
    &&& bytes.subrange(i, i + cp_bytes(cp).len()) == cp_bytes(cp)
}

/// Some code point is encoded at `i`.
pub open spec fn any_cp_at(bytes: Seq<u8>, i: int) -> bool {
    exists|cp: u32| cp_at(bytes, i, cp)
}

/// The code point read at `i`: the one encoded there, U+FFFD if none is.
pub open spec fn cp_read(bytes: Seq<u8>, i: int) -> u32 {
    if any_cp_at(bytes, i) {
        choose|cp: u32| cp_at(bytes, i, cp)
    } else {
        0xFFFD
    }
}

/// How many bytes the read at `i` consumes: the encoding, or one bogus byte.
pub open spec fn cp_width(bytes: Seq<u8>, i: int) -> int {
    if any_cp_at(bytes, i) {
        cp_bytes(cp_read(bytes, i)).len() as int
    } else {
        1
    }
}

/// The code points of any bytes from `i` on.
pub open spec fn decode_from(bytes: Seq<u8>, i: int) -> Seq<u32>
    decreases bytes.len() - i,
{
    if i < 0 || i >= bytes.len() {
        seq![]
    } else {
        seq![cp_read(bytes, i)] + decode_from(bytes, i + cp_width(bytes, i))
    }
}

/// The code points of any bytes.
pub open spec fn decode(bytes: Seq<u8>) -> Seq<u32> {
    decode_from(bytes, 0)
}

/// The UTF-16 code units of one code point.
pub open spec fn cp_units(cp: u32) -> Seq<u16> {
    if cp < 0x10000 {
        seq![cp as u16]
    } else {
        seq![
            (0xD800 + (cp - 0x10000) / 0x400) as u16,
            (0xDC00 + (cp - 0x10000) % 0x400) as u16,
        ]
    }
}

/// The UTF-16 code units of a sequence of code points.
pub open spec fn cps_units(cps: Seq<u32>) -> Seq<u16>
    decreases cps.len(),
{
    if cps.len() == 0 {
        seq![]
    } else {
        cps_units(cps.drop_last()) + cp_units(cps.last())
    }
}

/// The character shown for a code point: itself, or U+FFFD for a surrogate.
pub open spec fn shown_char(cp: u32) -> char {
    if is_scalar(cp) {
        cp as char
    } else {
        '\u{FFFD}'
    }
}

/// The text shown for any bytes, one character for each code point read.
pub open spec fn shown_text(bytes: Seq<u8>) -> Seq<char> {
    decode(bytes).map_values(|cp: u32| shown_char(cp))
}

/// No code point's encoding begins with another's.
pub proof fn lemma_cp_at_unique(bytes: Seq<u8>, i: int, a: u32, b: u32)
    requires
        cp_at(bytes, i, a),
        cp_at(bytes, i, b),
    ensures
        a == b,
{
    let sa = bytes.subrange(i, i + cp_bytes(a).len());
    let sb = bytes.subrange(i, i + cp_bytes(b).len());
    assert(sa[0] == bytes[i] && sb[0] == bytes[i]);
    assert(cp_bytes(a).len() == cp_bytes(b).len());
    assert(sa =~= sb);
    if cp_bytes(a).len() >= 2 {
        assert(sa[1] == cp_bytes(b)[1]);
    }
    if cp_bytes(a).len() >= 3 {
        assert(sa[2] == cp_bytes(b)[2]);
    }
    if cp_bytes(a).len() >= 4 {
        assert(sa[3] == cp_bytes(b)[3]);
    }
}

/// Where a code point is encoded, that code point is read.
pub proof fn lemma_read_is(bytes: Seq<u8>, i: int, cp: u32)
    requires
        cp_at(bytes, i, cp),
    ensures
        cp_read(bytes, i) == cp,
        cp_width(bytes, i) == cp_bytes(cp).len(),
{
    lemma_cp_at_unique(bytes, i, cp, cp_read(bytes, i));
}

/// The width of a read is positive and stays inside the bytes.
pub proof fn lemma_width(bytes: Seq<u8>, i: int)
    requires
        0 <= i < bytes.len(),
    ensures
        1 <= cp_width(bytes, i) <= 4,
        i + cp_width(bytes, i) <= bytes.len(),
        cp_read(bytes, i) <= 0x10FFFF,
{
    if any_cp_at(bytes, i) {
        assert(cp_at(bytes, i, cp_read(bytes, i)));
    }
}

/// What follows a position decodes the same whatever stands before it.
proof fn lemma_decode_suffix(a: Seq<u8>, b: Seq<u8>, i: int)
    requires
        0 <= i <= b.len(),
    ensures
        decode_from(a + b, a.len() + i) == decode_from(b, i),
    decreases b.len() - i,
{
    if i < b.len() {
        assert forall|cp: u32| cp_at(a + b, a.len() + i, cp) == cp_at(b, i, cp) by {
            let n = cp_bytes(cp).len();
            if i + n <= b.len() {
                assert((a + b).subrange(a.len() + i, a.len() + i + n) =~= b.subrange(i, i + n));
            }
        }
        if any_cp_at(b, i) {
            let cp = cp_read(b, i);
            assert(cp_at(b, i, cp));
            lemma_read_is(a + b, a.len() + i, cp);
        } else {
            assert(!any_cp_at(a + b, a.len() + i)) by {
                if any_cp_at(a + b, a.len() + i) {
                    let cp = cp_read(a + b, a.len() + i);
                    assert(cp_at(a + b, a.len() + i, cp));
                    assert(cp_at(b, i, cp));
                }
            }
        }
        lemma_width(b, i);
        lemma_decode_suffix(a, b, i + cp_width(b, i));
    }
}

/// Encoding code points and reading them back gives the same code points.
pub proof fn law_decode_inverts_encode(cps: Seq<u32>)
    requires
        forall|k: int| 0 <= k < cps.len() ==> cps[k] <= 0x10FFFF,
    ensures
        decode(cps_bytes(cps)) == cps,
    decreases cps.len(),
{
    if cps.len() > 0 {
        let head = cp_bytes(cps[0]);
        let tail = cps.subrange(1, cps.len() as int);
        law_decode_inverts_encode(tail);
        let all = head + cps_bytes(tail);
        assert(all.subrange(0, head.len() as int) =~= head);
        assert(cp_at(all, 0, cps[0]));
        lemma_read_is(all, 0, cps[0]);
        lemma_decode_suffix(head, cps_bytes(tail), 0);
        assert(decode(all) =~= seq![cps[0]] + tail);
        assert(seq![cps[0]] + tail =~= cps);
    }
}

/// Every code point obtained from code units is in range.
pub proof fn lemma_unit_code_points_in_range(units: Seq<u16>)
    ensures
        forall|k: int|
            0 <= k < unit_code_points(units).len() ==> unit_code_points(units)[k] <= 0x10FFFF,
    decreases units.len(),
{
    if units.len() > 0 {
        let n: int = if units.len() >= 2 && is_high(units[0]) && is_low(units[1]) { 2 } else { 1 };
        let tail = units.subrange(n, units.len() as int);
        lemma_unit_code_points_in_range(tail);
        assert forall|k: int| 0 <= k < unit_code_points(units).len() implies unit_code_points(
            units,
        )[k] <= 0x10FFFF by {
            if k > 0 {
                assert(unit_code_points(units)[k] == unit_code_points(tail)[k - 1]);
            }
        }
    }
}

proof fn lemma_cps_units_concat(a: Seq<u32>, b: Seq<u32>)
    ensures
        cps_units(a + b) == cps_units(a) + cps_units(b),
    decreases b.len(),
{
    if b.len() == 0 {
        assert(a + b =~= a);
    } else {
        assert((a + b).drop_last() =~= a + b.drop_last());
        lemma_cps_units_concat(a, b.drop_last());
    }
}

proof fn lemma_cps_units_one(cp: u32)
    ensures
        cps_units(seq![cp]) == cp_units(cp),
{
    assert(seq![cp].drop_last() =~= Seq::<u32>::empty());
    assert(cps_units(Seq::<u32>::empty()) =~= Seq::<u16>::empty());
    assert(cps_units(seq![cp]) =~= cp_units(cp));
}

proof fn lemma_units_of_code_points(units: Seq<u16>)
    ensures
        cps_units(unit_code_points(units)) == units,
    decreases units.len(),
{
    if units.len() == 0 {
    } else if units.len() >= 2 && is_high(units[0]) && is_low(units[1]) {
        let rest = units.subrange(2, units.len() as int);
        let cp = pair_code_point(units[0], units[1]);
        lemma_units_of_code_points(rest);
        lemma_cps_units_concat(seq![cp], unit_code_points(rest));
        lemma_cps_units_one(cp);
        assert(cp_units(cp) =~= seq![units[0], units[1]]);
        assert(seq![units[0], units[1]] + rest =~= units);
    } else {
        let rest = units.subrange(1, units.len() as int);
        let cp = units[0] as u32;
        lemma_units_of_code_points(rest);
        lemma_cps_units_concat(seq![cp], unit_code_points(rest));
        lemma_cps_units_one(cp);
        assert(seq![units[0]] + rest =~= units);
    }
}

/// UTF-16 to WTF-8 and back is the identity on every sequence of code units,
/// unpaired surrogates included.
pub proof fn law_utf16_round_trip(units: Seq<u16>)
    ensures
        cps_units(decode(wtf8_of_units(units))) == units,
{
    lemma_unit_code_points_in_range(units);
    law_decode_inverts_encode(unit_code_points(units));
    lemma_units_of_code_points(units);
}

/// Two different names never have the same WTF-8 bytes.
pub proof fn law_wtf8_is_injective(a: Seq<u16>, b: Seq<u16>)
    ensures
        wtf8_of_units(a) == wtf8_of_units(b) ==> a == b,
{
    law_utf16_round_trip(a);
    law_utf16_round_trip(b);
}

/// A separator (or any other character below U+0080) is read only where its
/// own byte stands: no longer form of it is ever accepted.
pub proof fn law_ascii_is_read_only_as_itself(bytes: Seq<u8>, i: int)
    requires
        0 <= i < bytes.len(),
        cp_read(bytes, i) < 0x80,
    ensures
        bytes[i] == cp_read(bytes, i),
        cp_width(bytes, i) == 1,
{
    let cp = cp_read(bytes, i);
    assert(cp_at(bytes, i, cp));
    assert(bytes.subrange(i, i + 1)[0] == bytes[i]);
}

/// Appends the WTF-8 bytes of one code point, surrogates included.
pub fn encode_code_point(cp: u32, out: &mut Vec<u8>)
    requires
        cp <= 0x10FFFF,
    ensures
        final(out)@ == old(out)@ + cp_bytes(cp),
{
    if cp < 0x80 {
        out.push(cp as u8);
    } else if cp < 0x800 {
        out.push((0xC0 + cp / 0x40) as u8);
        out.push((0x80 + cp % 0x40) as u8);
    } else if cp < 0x10000 {
        out.push((0xE0 + cp / 0x1000) as u8);
        out.push((0x80 + cp / 0x40 % 0x40) as u8);
        out.push((0x80 + cp % 0x40) as u8);
    } else {
        out.push((0xF0 + cp / 0x40000) as u8);
        out.push((0x80 + cp / 0x1000 % 0x40) as u8);
        out.push((0x80 + cp / 0x40 % 0x40) as u8);
        out.push((0x80 + cp % 0x40) as u8);
    }
    assert(out@ =~= old(out)@ + cp_bytes(cp));
}

pub proof fn lemma_cps_bytes_push(cps: Seq<u32>, cp: u32)
    ensures
        cps_bytes(cps.push(cp)) == cps_bytes(cps) + cp_bytes(cp),
    decreases cps.len(),
{
    if cps.len() == 0 {
        assert(cps.push(cp).subrange(1, 1) =~= Seq::<u32>::empty());
        assert(cps_bytes(Seq::<u32>::empty()) =~= Seq::<u8>::empty());
        assert(cps_bytes(cps.push(cp)) =~= cps_bytes(cps) + cp_bytes(cp));
    } else {
        let tail = cps.subrange(1, cps.len() as int);
        assert(cps.push(cp).subrange(1, cps.len() as int + 1) =~= tail.push(cp));
        lemma_cps_bytes_push(tail, cp);
        assert(cps_bytes(cps.push(cp)) =~= cps_bytes(cps) + cp_bytes(cp));
    }
}

/// The bytes of two sequences of code points, one after the other.
pub proof fn lemma_cps_bytes_concat(a: Seq<u32>, b: Seq<u32>)
    ensures
        cps_bytes(a + b) == cps_bytes(a) + cps_bytes(b),
    decreases b.len(),
{
    if b.len() == 0 {
        assert(a + b =~= a);
        assert(cps_bytes(a) + cps_bytes(b) =~= cps_bytes(a));
    } else {
        let init = b.drop_last();
        lemma_cps_bytes_concat(a, init);
        lemma_cps_bytes_push(a + init, b.last());
        lemma_cps_bytes_push(init, b.last());
        assert((a + init).push(b.last()) =~= a + b);
        assert(init.push(b.last()) =~= b);
        assert(cps_bytes(a + b) =~= cps_bytes(a) + cps_bytes(b));
    }
}

/// Converts potentially ill-formed UTF-16 to WTF-8, appending to `out`.
/// Returns whether the input held an unpaired surrogate.
pub fn from_utf16(units: &[u16], out: &mut Vec<u8>) -> (lone: bool)
    ensures
        final(out)@ == old(out)@ + wtf8_of_units(units@),
        lone == has_lone(units@),
{
    let mut has_lone_surrogate = false;
    let mut i: usize = 0;
    let ghost mut cps: Seq<u32> = seq![];
    assert(units@.subrange(0, units@.len() as int) =~= units@);
    assert(cps + unit_code_points(units@) =~= unit_code_points(units@));
    assert(old(out)@ + cps_bytes(cps) =~= old(out)@);
    while i < units.len()
        invariant
            i <= units.len(),
            cps + unit_code_points(units@.subrange(i as int, units@.len() as int))
                == unit_code_points(units@),
            out@ == old(out)@ + cps_bytes(cps),
            0 < i < units.len() && is_low(units@[i as int]) ==> !is_high(units@[i - 1]),
            has_lone_surrogate == (exists|k: int| 0 <= k < i && #[trigger] lone_at(units@, k)),
        decreases units.len() - i,
    {
        let ghost rest = units@.subrange(i as int, units@.len() as int);
        let u = units[i];
        let ghost start = i as int;
        let mut cp: u32 = u as u32;
        if 0xD800 <= u && u < 0xDC00 && i + 1 < units.len() && 0xDC00 <= units[i + 1] && units[i
            + 1] < 0xE000 {
            cp = 0x10000 + (u as u32 - 0xD800) * 0x400 + (units[i + 1] as u32 - 0xDC00);
            i = i + 1;
            assert(!lone_at(units@, start));
            assert(!lone_at(units@, start + 1));
            assert(rest.subrange(2, rest.len() as int) =~= units@.subrange(
                start + 2,
                units@.len() as int,
            ));
        } else {
            if 0xD800 <= u && u < 0xE000 {
                has_lone_surrogate = true;
                assert(lone_at(units@, start));
            } else {
                assert(!lone_at(units@, start));
            }
            assert(rest.subrange(1, rest.len() as int) =~= units@.subrange(
                start + 1,
                units@.len() as int,
            ));
        }
        encode_code_point(cp, out);
        i = i + 1;
        proof {
            lemma_cps_bytes_push(cps, cp);
            let tail = unit_code_points(units@.subrange(i as int, units@.len() as int));
            assert(unit_code_points(rest) == seq![cp] + tail);
            assert(cps.push(cp) + tail =~= cps + (seq![cp] + tail));
            assert(old(out)@ + (cps_bytes(cps) + cp_bytes(cp)) =~= old(out)@ + cps_bytes(cps)
                + cp_bytes(cp));
            cps = cps.push(cp);
        }
    }
    proof {
        assert(units@.subrange(i as int, units@.len() as int) =~= Seq::<u16>::empty());
        assert(cps =~= unit_code_points(units@));
    }
    has_lone_surrogate
}

/// A cursor over the code points of WTF-8 bytes.
///
/// Malformed input gives U+FFFD for each bogus byte, so the decoder is total
/// on untrusted data.
pub struct CodePoints<'a> {
    bytes: &'a [u8],
    i: usize,
}

impl<'a> CodePoints<'a> {
    pub closed spec fn bytes(&self) -> Seq<u8> {
        self.bytes@
    }

    /// Position of the next byte to read.
    pub closed spec fn pos(&self) -> int {
        self.i as int
    }

    pub closed spec fn wf(&self) -> bool {
        self.i <= self.bytes@.len()
    }

    /// The code points still to come.
    pub open spec fn rest(&self) -> Seq<u32> {
        decode_from(self.bytes(), self.pos())
    }

    pub fn new(bytes: &'a [u8]) -> (c: CodePoints<'a>)
        ensures
            c.wf(),
            c.bytes() == bytes@,
            c.pos() == 0,
            c.rest() == decode(bytes@),
    {
        CodePoints { bytes, i: 0 }
    }

    /// The next code point, or `None` at the end.
    pub fn next(&mut self) -> (r: Option<u32>)
        requires
            old(self).wf(),
        ensures
            final(self).wf(),
            final(self).bytes() == old(self).bytes(),
            r is None <==> old(self).rest().len() == 0,
            r is None ==> old(self).pos() == old(self).bytes().len() && *final(self) == *old(self),
            r matches Some(cp) ==> {
                &&& old(self).rest() == seq![cp] + final(self).rest()
                &&& cp == cp_read(old(self).bytes(), old(self).pos())
                &&& final(self).pos() == old(self).pos() + cp_width(
                    old(self).bytes(),
                    old(self).pos(),
                )
                &&& old(self).pos() < final(self).pos() <= old(self).bytes().len()
                &&& cp <= 0x10FFFF
            },
    {
        if self.i >= self.bytes.len() {
            return None;
        }
        proof {
            lemma_width(self.bytes@, self.i as int);
        }
        let (cp, width) = read_at(self.bytes, self.i);
        self.i = self.i + width;
        Some(cp)
    }
}

/// How the bytes at `i` spell the code point encoded there.
proof fn lemma_cp_spelling(bytes: Seq<u8>, i: int, cp: u32)
    requires
        cp_at(bytes, i, cp),
    ensures
        cp < 0x80 ==> bytes[i] == cp,
        0x80 <= cp < 0x800 ==> {
            &&& i + 2 <= bytes.len()
            &&& 0xC0 <= bytes[i] < 0xE0
            &&& 0x80 <= bytes[i + 1] < 0xC0
            &&& cp == (bytes[i] - 0xC0) * 0x40 + (bytes[i + 1] - 0x80)
        },
        0x800 <= cp < 0x10000 ==> {
            &&& i + 3 <= bytes.len()
            &&& 0xE0 <= bytes[i] < 0xF0
            &&& 0x80 <= bytes[i + 1] < 0xC0
            &&& 0x80 <= bytes[i + 2] < 0xC0
            &&& cp == (bytes[i] - 0xE0) * 0x1000 + (bytes[i + 1] - 0x80) * 0x40 + (bytes[i + 2]
                - 0x80)
        },
        0x10000 <= cp ==> {
            &&& i + 4 <= bytes.len()
            &&& 0xF0 <= bytes[i] < 0xF5
            &&& 0x80 <= bytes[i + 1] < 0xC0
            &&& 0x80 <= bytes[i + 2] < 0xC0
            &&& 0x80 <= bytes[i + 3] < 0xC0
            &&& cp == (bytes[i] - 0xF0) * 0x40000 + (bytes[i + 1] - 0x80) * 0x1000 + (bytes[i + 2]
                - 0x80) * 0x40 + (bytes[i + 3] - 0x80)
        },
{
    let e = cp_bytes(cp);
    let s = bytes.subrange(i, i + e.len());
    assert(bytes[i] == s[0]);
    if cp >= 0x80 {
        assert(bytes[i + 1] == s[1]);
    }
    if cp >= 0x800 {
        assert(bytes[i + 2] == s[2]);
    }
    if cp >= 0x10000 {
        assert(bytes[i + 3] == s[3]);
    }
}

/// The two-byte form of a code point is its encoding.
proof fn lemma_spelled_2(b: u8, c1: u8, cp: u32)
    requires
        0xC0 <= b < 0xE0,
        0x80 <= c1 < 0xC0,
        cp == (b - 0xC0) * 0x40 + (c1 - 0x80),
        cp >= 0x80,
    ensures
        cp_bytes(cp) == seq![b, c1],
{
    assert(cp / 0x40 == b - 0xC0);
    assert(cp_bytes(cp) =~= seq![b, c1]);
}

/// The three-byte form of a code point is its encoding.
proof fn lemma_spelled_3(b: u8, c1: u8, c2: u8, cp: u32)
    requires
        0xE0 <= b < 0xF0,
        0x80 <= c1 < 0xC0,
        0x80 <= c2 < 0xC0,
        cp == (b - 0xE0) * 0x1000 + (c1 - 0x80) * 0x40 + (c2 - 0x80),
        cp >= 0x800,
    ensures
        cp_bytes(cp) == seq![b, c1, c2],
{
    assert(cp / 0x1000 == b - 0xE0);
    assert(cp / 0x40 == (b - 0xE0) * 0x40 + (c1 - 0x80));
    assert(cp_bytes(cp) =~= seq![b, c1, c2]);
}

/// The four-byte form of a code point is its encoding.
proof fn lemma_spelled_4(b: u8, c1: u8, c2: u8, c3: u8, cp: u32)
    requires
        0xF0 <= b < 0xF8,
        0x80 <= c1 < 0xC0,
        0x80 <= c2 < 0xC0,
        0x80 <= c3 < 0xC0,
        cp == (b - 0xF0) * 0x40000 + (c1 - 0x80) * 0x1000 + (c2 - 0x80) * 0x40 + (c3 - 0x80),
        0x10000 <= cp <= 0x10FFFF,
    ensures
        cp_bytes(cp) == seq![b, c1, c2, c3],
{
    assert(cp / 0x40000 == b - 0xF0);
    assert(cp / 0x1000 == (b - 0xF0) * 0x40 + (c1 - 0x80));
    assert(cp / 0x40 == (b - 0xF0) * 0x1000 + (c1 - 0x80) * 0x40 + (c2 - 0x80));
    assert(cp_bytes(cp) =~= seq![b, c1, c2, c3]);
}

/// The code point at `i` and the number of bytes it takes.
fn read_at(bytes: &[u8], i: usize) -> (r: (u32, usize))
    requires
        i < bytes@.len(),
    ensures
        r.0 == cp_read(bytes@, i as int),
        r.1 == cp_width(bytes@, i as int),
{
    let left = bytes.len() - i;
    let b = bytes[i];
    let mut len: usize = 1;
    let mut cp: u32 = 0xFFFD;
    let mut found = false;
    if b < 0x80 {
        cp = b as u32;
        found = true;
        assert(cp_bytes(cp) =~= seq![b]);
    } else if 0xC0 <= b && b < 0xE0 && left >= 2 {
        let c1 = bytes[i + 1];
        if 0x80 <= c1 && c1 < 0xC0 {
            let v: u32 = (b as u32 - 0xC0) * 0x40 + (c1 as u32 - 0x80);
            if v >= 0x80 {
                cp = v;
                len = 2;
                found = true;
                proof {
                    lemma_spelled_2(b, c1, cp);
                }
            }
        }
    } else if 0xE0 <= b && b < 0xF0 && left >= 3 {
        let c1 = bytes[i + 1];
        let c2 = bytes[i + 2];
        if 0x80 <= c1 && c1 < 0xC0 && 0x80 <= c2 && c2 < 0xC0 {
            let v: u32 = (b as u32 - 0xE0) * 0x1000 + (c1 as u32 - 0x80) * 0x40 + (c2 as u32
                - 0x80);
            if v >= 0x800 {
                cp = v;
                len = 3;
                found = true;
                proof {
                    lemma_spelled_3(b, c1, c2, cp);
                }
            }
        }
    } else if 0xF0 <= b && b < 0xF8 && left >= 4 {
        let c1 = bytes[i + 1];
        let c2 = bytes[i + 2];
        let c3 = bytes[i + 3];
        if 0x80 <= c1 && c1 < 0xC0 && 0x80 <= c2 && c2 < 0xC0 && 0x80 <= c3 && c3 < 0xC0 {
            let v: u32 = (b as u32 - 0xF0) * 0x40000 + (c1 as u32 - 0x80) * 0x1000 + (c2 as u32
                - 0x80) * 0x40 + (c3 as u32 - 0x80);
            if v >= 0x10000 && v <= 0x10FFFF {
                cp = v;
                len = 4;
                found = true;
                proof {
                    lemma_spelled_4(b, c1, c2, c3, cp);
                }
            }
        }
    }
    proof {
        if found {
            assert(bytes@.subrange(i as int, i + len) =~= cp_bytes(cp));
            assert(cp_at(bytes@, i as int, cp));
            lemma_read_is(bytes@, i as int, cp);
        } else {
            assert forall|x: u32| !cp_at(bytes@, i as int, x) by {
                if cp_at(bytes@, i as int, x) {
                    lemma_cp_spelling(bytes@, i as int, x);
                }
            }
            assert(!any_cp_at(bytes@, i as int));
        }
    }
    (cp, len)
}

/// Converts WTF-8 back to the UTF-16 code units it came from.
pub fn to_utf16(bytes: &[u8]) -> (units: Vec<u16>)
    ensures
        units@ == cps_units(decode(bytes@)),
{
    let mut out: Vec<u16> = Vec::with_capacity(bytes.len());
    let mut points = CodePoints::new(bytes);
    let ghost mut done: Seq<u32> = seq![];
    assert(done + points.rest() =~= decode(bytes@));
    loop
        invariant
            points.wf(),
            points.bytes() == bytes@,
            0 <= points.pos() <= bytes@.len(),
            done + points.rest() == decode(bytes@),
            out@ == cps_units(done),
        ensures
            out@ == cps_units(decode(bytes@)),
        decreases bytes@.len() - points.pos(),
    {
        let ghost before = points.rest();
        match points.next() {
            None => {
                assert(done + before =~= done);
                break;
            },
            Some(cp) => {
                if cp < 0x10000 {
                    out.push(cp as u16);
                } else {
                    let v = cp - 0x10000;
                    out.push((0xD800 + v / 0x400) as u16);
                    out.push((0xDC00 + v % 0x400) as u16);
                }
                proof {
                    assert(done.push(cp).drop_last() =~= done);
                    assert(out@ =~= cps_units(done) + cp_units(cp));
                    assert(done.push(cp) + points.rest() =~= done + (seq![cp] + points.rest()));
                    done = done.push(cp);
                }
            },
        }
    }
    out
}

/// Converts WTF-8 to a `String`, replacing each lone surrogate and each bogus
/// byte with U+FFFD.
pub fn to_string_lossy(bytes: &[u8]) -> (s: String)
    ensures
        s@ == shown_text(bytes@),
{
    if let Some(s) = text::utf8_text(bytes) {
        proof {
            text::lemma_valid_points(bytes@);
        }
        return s.to_owned();
    }
    let mut s = String::new();
    let mut points = CodePoints::new(bytes);
    let ghost mut done: Seq<u32> = seq![];
    assert(done + points.rest() =~= decode(bytes@));
    loop
        invariant
            points.wf(),
            points.bytes() == bytes@,
            0 <= points.pos() <= bytes@.len(),
            done + points.rest() == decode(bytes@),
            s@ == done.map_values(|cp: u32| shown_char(cp)),
        ensures
            s@ == shown_text(bytes@),
        decreases bytes@.len() - points.pos(),
    {
        let ghost before = points.rest();
        match points.next() {
            None => {
                assert(done + before =~= done);
                break;
            },
            Some(cp) => {
                let c = match char::from_u32(cp) {
                    Some(c) => c,
                    None => '\u{FFFD}',
                };
                s.push(c);
                proof {
                    assert(s@ =~= done.push(cp).map_values(|cp: u32| shown_char(cp)));
                    assert(done.push(cp) + points.rest() =~= done + (seq![cp] + points.rest()));
                    done = done.push(cp);
                }
            },
        }
    }
    s
}

/// A byte that begins no code point is read as U+FFFD by itself, and so is shown
/// an unpaired surrogate.
pub proof fn law_stray_bytes_are_replaced(bytes: Seq<u8>, i: int, cp: u32)
    requires
        0 <= i < bytes.len(),
        0x80 <= bytes[i] < 0xC2 || bytes[i] >= 0xF5,
        0xD800 <= cp < 0xE000,
    ensures
        decode_from(bytes, i) == seq![0xFFFDu32] + decode_from(bytes, i + 1),
        shown_char(cp) == '\u{FFFD}',
{
    if any_cp_at(bytes, i) {
        let c = choose|c: u32| cp_at(bytes, i, c);
        let n = cp_bytes(c).len();
        assert(bytes.subrange(i, i + n)[0] == bytes[i]);
        assert(cp_bytes(c)[0] == bytes[i]);
        assert(n >= 1);
    }
}

/// ASCII is its own encoding.
pub proof fn lemma_ascii_bytes(cps: Seq<u32>)
    requires
        forall|k: int| 0 <= k < cps.len() ==> #[trigger] cps[k] < 0x80,
    ensures
        cps_bytes(cps).len() == cps.len(),
        forall|k: int| 0 <= k < cps.len() ==> #[trigger] cps_bytes(cps)[k] == cps[k] as u8,
    decreases cps.len(),
{
    if cps.len() > 0 {
        let rest = cps.subrange(1, cps.len() as int);
        assert forall|k: int| 0 <= k < rest.len() implies #[trigger] rest[k] < 0x80 by {
            assert(cps[k + 1] < 0x80);
        }
        lemma_ascii_bytes(rest);
        assert(cps[0] < 0x80);
        assert forall|k: int| 0 <= k < cps.len() implies #[trigger] cps_bytes(cps)[k]
            == cps[k] as u8 by {
            if k > 0 {
                assert(cps_bytes(cps)[k] == cps_bytes(rest)[k - 1]);
                assert(rest[k - 1] == cps[k]);
            }
        }
    }
}

/// A code point above U+FFFF is a high and a low surrogate, which hold its upper
/// and its lower ten bits; every other one is one unit.
pub proof fn law_pairs_hold_ten_bits_each(cp: u32)
    requires
        cp <= 0x10FFFF,
    ensures
        cp < 0x1_0000 ==> cp_units(cp).len() == 1 && cp_units(cp)[0] == cp,
        cp >= 0x1_0000 ==> cp_units(cp).len() == 2 && 0xD800 <= cp_units(cp)[0] < 0xDC00 && 0xDC00
            <= cp_units(cp)[1] < 0xE000 && 0x1_0000 + 0x400 * (cp_units(cp)[0] - 0xD800) + (
        cp_units(cp)[1] - 0xDC00) == cp,
{
}

} // verus!
