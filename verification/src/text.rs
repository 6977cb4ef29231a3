//! Characters, strings and decimal numbers.

use crate::wtf8;
use vstd::prelude::*;
use vstd::utf8::*;

verus! {

/// `String::push` appends one character.
pub assume_specification[ String::push ](s: &mut String, c: char)
    ensures
        final(s)@ == old(s)@.push(c),
;

/// `char::from_u32` gives the character of a scalar value, and nothing for a
/// surrogate or a number above U+10FFFF.
pub assume_specification[ char::from_u32 ](i: u32) -> (r: Option<char>)
    ensures
        r == if is_scalar(i) {
            Some(i as char)
        } else {
            None
        },
;

/// `core::str::from_utf8`: the text whose encoding the bytes are, if they are
/// valid UTF-8.
#[verifier::external_body]
pub(crate) fn utf8_text(bytes: &[u8]) -> (r: Option<&str>)
    ensures
        r is Some <==> valid_utf8(bytes@),
        r matches Some(s) ==> s@ == decode_utf8(bytes@),
{
    match core::str::from_utf8(bytes) {
        Ok(s) => Some(s),
        Err(_) => None,
    }
}

/// The code points of a text.
pub open spec fn char_points(chars: Seq<char>) -> Seq<u32> {
    chars.map_values(|c: char| c as u32)
}

proof fn lemma_width_2(cp: u32)
    by (bit_vector)
    requires
        0x80 <= cp < 0x800,
    ensures
        0xC0u8 | ((cp >> 6) & 0x1F) as u8 == (0xC0 + cp / 0x40) as u8,
        0x80u8 | (cp & 0x3F) as u8 == (0x80 + cp % 0x40) as u8,
{
}

proof fn lemma_width_3(cp: u32)
    by (bit_vector)
    requires
        0x800 <= cp < 0x10000,
    ensures
        0xE0u8 | ((cp >> 12) & 0x0F) as u8 == (0xE0 + cp / 0x1000) as u8,
        0x80u8 | ((cp >> 6) & 0x3F) as u8 == (0x80 + cp / 0x40 % 0x40) as u8,
        0x80u8 | (cp & 0x3F) as u8 == (0x80 + cp % 0x40) as u8,
{
}

proof fn lemma_width_4(cp: u32)
    by (bit_vector)
    requires
        0x10000 <= cp <= 0x10FFFF,
    ensures
        0xF0u8 | ((cp >> 18) & 0x7) as u8 == (0xF0 + cp / 0x40000) as u8,
        0x80u8 | ((cp >> 12) & 0x3F) as u8 == (0x80 + cp / 0x1000 % 0x40) as u8,
        0x80u8 | ((cp >> 6) & 0x3F) as u8 == (0x80 + cp / 0x40 % 0x40) as u8,
        0x80u8 | (cp & 0x3F) as u8 == (0x80 + cp % 0x40) as u8,
{
}

proof fn lemma_width_1(cp: u32)
    by (bit_vector)
    requires
        cp < 0x80,
    ensures
        (cp & 0x7F) as u8 == cp as u8,
{
}

/// For a scalar value, WTF-8 and UTF-8 agree.
pub proof fn lemma_scalar_bytes(cp: u32)
    requires
        is_scalar(cp),
    ensures
        wtf8::cp_bytes(cp) == encode_scalar(cp),
{
    if cp < 0x80 {
        lemma_width_1(cp);
    } else if cp < 0x800 {
        lemma_width_2(cp);
    } else if cp < 0x10000 {
        lemma_width_3(cp);
    } else {
        lemma_width_4(cp);
    }
    assert(wtf8::cp_bytes(cp) =~= encode_scalar(cp));
}

/// For text, WTF-8 and UTF-8 agree.
pub proof fn lemma_text_bytes(chars: Seq<char>)
    ensures
        encode_utf8(chars) == wtf8::cps_bytes(char_points(chars)),
    decreases chars.len(),
{
    if chars.len() > 0 {
        char_is_scalar(chars[0]);
        lemma_scalar_bytes(chars[0] as u32);
        lemma_text_bytes(chars.drop_first());
        assert(char_points(chars).subrange(1, chars.len() as int) =~= char_points(
            chars.drop_first(),
        ));
    } else {
        assert(char_points(chars) =~= Seq::<u32>::empty());
    }
}

/// The code points read from the encoding of a text are its characters.
pub proof fn lemma_text_points(chars: Seq<char>)
    ensures
        wtf8::decode(encode_utf8(chars)) == char_points(chars),
{
    lemma_text_bytes(chars);
    assert forall|k: int| 0 <= k < chars.len() implies char_points(chars)[k] <= 0x10FFFF by {
        char_is_scalar(chars[k]);
    }
    wtf8::law_decode_inverts_encode(char_points(chars));
}

/// The text shown for the encoding of a text is that text.
pub proof fn law_valid_text_is_shown_unchanged(chars: Seq<char>)
    ensures
        wtf8::shown_text(encode_utf8(chars)) == chars,
{
    lemma_text_points(chars);
    assert forall|k: int| 0 <= k < chars.len() implies wtf8::shown_char(chars[k] as u32) == chars[k] by {
        char_is_scalar(chars[k]);
        char_u32_cast(chars[k], chars[k] as u32);
    }
    assert(wtf8::shown_text(encode_utf8(chars)) =~= chars);
}

/// Valid UTF-8 decodes to scalar values only.
pub proof fn lemma_valid_points(bytes: Seq<u8>)
    requires
        valid_utf8(bytes),
    ensures
        wtf8::decode(bytes) == char_points(decode_utf8(bytes)),
        wtf8::shown_text(bytes) == decode_utf8(bytes),
{
    decode_utf8_encode_utf8(bytes);
    lemma_text_points(decode_utf8(bytes));
    law_valid_text_is_shown_unchanged(decode_utf8(bytes));
}

/// Code points that are all scalar values encode to valid UTF-8.
pub proof fn lemma_scalars_are_valid(cps: Seq<u32>)
    requires
        forall|k: int| 0 <= k < cps.len() ==> is_scalar(#[trigger] cps[k]),
    ensures
        valid_utf8(wtf8::cps_bytes(cps)),
{
    let chars = cps.map_values(|cp: u32| cp as char);
    assert forall|k: int| 0 <= k < cps.len() implies char_points(chars)[k] == cps[k] by {
        assert(is_scalar(cps[k]));
    }
    assert(char_points(chars) =~= cps);
    lemma_text_bytes(chars);
    encode_utf8_valid_utf8(chars);
}

proof fn lemma_no_lone_means_scalars(units: Seq<u16>)
    requires
        !wtf8::has_lone(units),
    ensures
        forall|k: int|
            0 <= k < wtf8::unit_code_points(units).len() ==> is_scalar(
                #[trigger] wtf8::unit_code_points(units)[k],
            ),
    decreases units.len(),
{
    if units.len() > 0 {
        let pair = units.len() >= 2 && wtf8::is_high(units[0]) && wtf8::is_low(units[1]);
        let n: int = if pair {
            2
        } else {
            1
        };
        let tail = units.subrange(n, units.len() as int);
        assert(!wtf8::lone_at(units, 0));
        assert(!wtf8::has_lone(tail)) by {
            if wtf8::has_lone(tail) {
                let k = choose|k: int| 0 <= k < tail.len() && #[trigger] wtf8::lone_at(tail, k);
                assert(!wtf8::lone_at(units, k + n));
                assert(tail[k] == units[k + n]);
                if k + 1 < tail.len() {
                    assert(tail[k + 1] == units[k + n + 1]);
                }
                if k > 0 {
                    assert(tail[k - 1] == units[k + n - 1]);
                }
            }
        }
        lemma_no_lone_means_scalars(tail);
        assert forall|k: int| 0 <= k < wtf8::unit_code_points(units).len() implies is_scalar(
            #[trigger] wtf8::unit_code_points(units)[k],
        ) by {
            if k > 0 {
                assert(wtf8::unit_code_points(units)[k] == wtf8::unit_code_points(tail)[k - 1]);
            }
        }
    }
}

proof fn lemma_lone_means_surrogate(units: Seq<u16>)
    requires
        wtf8::has_lone(units),
    ensures
        exists|k: int|
            0 <= k < wtf8::unit_code_points(units).len() && !is_scalar(
                #[trigger] wtf8::unit_code_points(units)[k],
            ),
    decreases units.len(),
{
    let w = choose|k: int| 0 <= k < units.len() && #[trigger] wtf8::lone_at(units, k);
    let pair = units.len() >= 2 && wtf8::is_high(units[0]) && wtf8::is_low(units[1]);
    let n: int = if pair {
        2
    } else {
        1
    };
    let tail = units.subrange(n, units.len() as int);
    if w < n {
        assert(w == 0 && !pair);
        assert(wtf8::unit_code_points(units)[0] == units[0] as u32);
        assert(!is_scalar(wtf8::unit_code_points(units)[0]));
    } else {
        assert(tail[w - n] == units[w]);
        if w + 1 < units.len() {
            assert(tail[w - n + 1] == units[w + 1]);
        }
        if w - n > 0 {
            assert(tail[w - n - 1] == units[w - 1]);
        }
        assert(wtf8::lone_at(tail, w - n));
        lemma_lone_means_surrogate(tail);
        let k = choose|k: int|
            0 <= k < wtf8::unit_code_points(tail).len() && !is_scalar(
                #[trigger] wtf8::unit_code_points(tail)[k],
            );
        assert(wtf8::unit_code_points(units)[k + 1] == wtf8::unit_code_points(tail)[k]);
    }
}

/// The WTF-8 bytes of a name are valid UTF-8 exactly when the name holds no
/// unpaired surrogate.
pub proof fn law_lone_surrogate_iff_not_utf8(units: Seq<u16>)
    ensures
        wtf8::has_lone(units) <==> !valid_utf8(wtf8::wtf8_of_units(units)),
{
    if wtf8::has_lone(units) {
        lemma_lone_means_surrogate(units);
        if valid_utf8(wtf8::wtf8_of_units(units)) {
            let bytes = wtf8::wtf8_of_units(units);
            let cps = wtf8::unit_code_points(units);
            lemma_valid_points(bytes);
            wtf8::lemma_unit_code_points_in_range(units);
            wtf8::law_decode_inverts_encode(cps);
            let k = choose|k: int| 0 <= k < cps.len() && !is_scalar(#[trigger] cps[k]);
            assert(cps[k] == decode_utf8(bytes)[k] as u32);
            char_is_scalar(decode_utf8(bytes)[k]);
        }
    } else {
        lemma_no_lone_means_scalars(units);
        lemma_scalars_are_valid(wtf8::unit_code_points(units));
    }
}

/// Appends the WTF-8 bytes of characters.
pub fn push_chars(chars: &[char], out: &mut Vec<u8>)
    ensures
        final(out)@ == old(out)@ + wtf8::cps_bytes(char_points(chars@)),
{
    let mut i: usize = 0;
    assert(char_points(chars@).subrange(0, 0) =~= Seq::<u32>::empty());
    assert(out@ =~= old(out)@ + wtf8::cps_bytes(Seq::<u32>::empty()));
    while i < chars.len()
        invariant
            i <= chars.len(),
            out@ == old(out)@ + wtf8::cps_bytes(char_points(chars@).subrange(0, i as int)),
        decreases chars.len() - i,
    {
        let c = chars[i];
        proof {
            char_is_scalar(c);
            let sofar = char_points(chars@).subrange(0, i as int);
            wtf8::lemma_cps_bytes_push(sofar, c as u32);
            assert(char_points(chars@).subrange(0, i + 1) =~= sofar.push(c as u32));
            assert(old(out)@ + (wtf8::cps_bytes(sofar) + wtf8::cp_bytes(c as u32)) =~= old(out)@ + wtf8::cps_bytes(
                sofar,
            ) + wtf8::cp_bytes(c as u32));
        }
        wtf8::encode_code_point(c as u32, out);
        i = i + 1;
    }
    assert(char_points(chars@).subrange(0, i as int) =~= char_points(chars@));
}

/// The UTF-8 bytes of characters.
pub fn utf8_bytes(chars: &[char]) -> (out: Vec<u8>)
    ensures
        out@ == encode_utf8(chars@),
{
    let mut out: Vec<u8> = Vec::new();
    push_chars(chars, &mut out);
    proof {
        lemma_text_bytes(chars@);
    }
    assert(out@ =~= encode_utf8(chars@));
    out
}

/// The characters of a string.
pub fn chars(s: &str) -> (v: Vec<char>)
    ensures
        v@ == s@,
{
    let mut v: Vec<char> = Vec::new();
    for c in iter: s.chars()
        invariant
            iter.seq() == s@,
            v@ == s@.subrange(0, iter.index() as int),
    {
        v.push(c);
        assert(v@ =~= s@.subrange(0, iter.index() + 1));
    }
    assert(s@.subrange(0, s@.len() as int) =~= s@);
    v
}

/// The string of some characters.
pub fn string(chars: &[char]) -> (s: String)
    ensures
        s@ == chars@,
{
    let mut s = String::new();
    let mut i: usize = 0;
    while i < chars.len()
        invariant
            i <= chars.len(),
            s@ == chars@.subrange(0, i as int),
        decreases chars.len() - i,
    {
        s.push(chars[i]);
        i = i + 1;
        assert(s@ =~= chars@.subrange(0, i as int));
    }
    assert(chars@.subrange(0, i as int) =~= chars@);
    s
}

/// The characters are those of `lit`.
pub fn same(chars: &[char], lit: &str) -> (r: bool)
    ensures
        r == (chars@ == lit@),
{
    let other = self::chars(lit);
    if chars.len() != other.len() {
        return false;
    }
    let mut i: usize = 0;
    while i < chars.len()
        invariant
            i <= chars.len(),
            chars@.len() == other@.len(),
            other@ == lit@,
            forall|k: int| 0 <= k < i ==> chars@[k] == other@[k],
        decreases chars.len() - i,
    {
        if chars[i] != other[i] {
            return false;
        }
        i = i + 1;
    }
    assert(chars@ =~= lit@);
    true
}

/// `s` begins with `lit`.
pub open spec fn starts(s: Seq<char>, lit: Seq<char>) -> bool {
    s.len() >= lit.len() && s.subrange(0, lit.len() as int) == lit
}

/// `s` ends with `lit`.
pub open spec fn ends(s: Seq<char>, lit: Seq<char>) -> bool {
    s.len() >= lit.len() && s.subrange(s.len() - lit.len(), s.len() as int) == lit
}

/// What follows the prefix `lit`, if the characters begin with it.
pub fn strip_prefix<'a>(chars: &'a [char], lit: &str) -> (r: Option<&'a [char]>)
    ensures
        r is Some <==> starts(chars@, lit@),
        r matches Some(rest) ==> rest@ == chars@.subrange(lit@.len() as int, chars@.len() as int),
{
    let n = self::chars(lit).len();
    if chars.len() < n {
        return None;
    }
    if same(vstd::slice::slice_subrange(chars, 0, n), lit) {
        Some(vstd::slice::slice_subrange(chars, n, chars.len()))
    } else {
        None
    }
}

/// What precedes the suffix `lit`, if the characters end with it.
pub fn strip_suffix<'a>(chars: &'a [char], lit: &str) -> (r: Option<&'a [char]>)
    ensures
        r is Some <==> ends(chars@, lit@),
        r matches Some(rest) ==> rest@ == chars@.subrange(0, chars@.len() - lit@.len()),
{
    let n = self::chars(lit).len();
    if chars.len() < n {
        return None;
    }
    let at = chars.len() - n;
    if same(vstd::slice::slice_subrange(chars, at, chars.len()), lit) {
        Some(vstd::slice::slice_subrange(chars, 0, at))
    } else {
        None
    }
}

/// The character has the Unicode property White_Space.
pub open spec fn is_space(c: char) -> bool {
    let u = c as u32;
    ||| 0x09 <= u <= 0x0D
    ||| u == 0x20
    ||| u == 0x85
    ||| u == 0xA0
    ||| u == 0x1680
    ||| 0x2000 <= u <= 0x200A
    ||| u == 0x2028
    ||| u == 0x2029
    ||| u == 0x202F
    ||| u == 0x205F
    ||| u == 0x3000
}

/// Whether the character is white space.
pub fn space(c: char) -> (r: bool)
    ensures
        r == is_space(c),
{
    let u = c as u32;
    (0x09 <= u && u <= 0x0D) || u == 0x20 || u == 0x85 || u == 0xA0 || u == 0x1680 || (0x2000 <= u
        && u <= 0x200A) || u == 0x2028 || u == 0x2029 || u == 0x202F || u == 0x205F || u == 0x3000
}

/// `s` without the white space in front.
pub open spec fn trimmed_front(s: Seq<char>) -> Seq<char>
    decreases s.len(),
{
    if s.len() > 0 && is_space(s[0]) {
        trimmed_front(s.drop_first())
    } else {
        s
    }
}

/// `s` without the white space behind.
pub open spec fn trimmed_back(s: Seq<char>) -> Seq<char>
    decreases s.len(),
{
    if s.len() > 0 && is_space(s.last()) {
        trimmed_back(s.drop_last())
    } else {
        s
    }
}

/// `s` without the white space around it.
pub open spec fn trimmed(s: Seq<char>) -> Seq<char> {
    trimmed_back(trimmed_front(s))
}

/// The characters without the white space around them.
pub fn trim(chars: &[char]) -> (r: &[char])
    ensures
        r@ == trimmed(chars@),
{
    let mut a: usize = 0;
    let n = chars.len();
    assert(chars@.subrange(0, n as int) =~= chars@);
    while a < n && space(chars[a])
        invariant
            a <= n,
            n == chars@.len(),
            trimmed_front(chars@.subrange(a as int, n as int)) == trimmed_front(chars@),
        decreases n - a,
    {
        assert(chars@.subrange(a as int, n as int).drop_first() =~= chars@.subrange(
            a + 1,
            n as int,
        ));
        a = a + 1;
    }
    let ghost front = chars@.subrange(a as int, n as int);
    assert(a < n ==> front[0] == chars@[a as int]);
    let mut b: usize = n;
    while a < b && space(chars[b - 1])
        invariant
            a <= b <= n,
            n == chars@.len(),
            trimmed_back(chars@.subrange(a as int, b as int)) == trimmed_back(front),
        decreases b - a,
    {
        assert(chars@.subrange(a as int, b as int).drop_last() =~= chars@.subrange(
            a as int,
            b - 1,
        ));
        b = b - 1;
    }
    assert(a < b ==> chars@.subrange(a as int, b as int).last() == chars@[b - 1]);
    vstd::slice::slice_subrange(chars, a, b)
}

/// The ASCII lowercase form of a character.
pub open spec fn lower(c: char) -> char {
    if 0x41 <= c as u32 <= 0x5A {
        (c as u32 + 0x20) as char
    } else {
        c
    }
}

/// The ASCII lowercase form of a text.
pub open spec fn lower_text(s: Seq<char>) -> Seq<char> {
    s.map_values(|c: char| lower(c))
}

/// The ASCII lowercase form of some characters.
pub fn to_lower(chars: &[char]) -> (out: Vec<char>)
    ensures
        out@ == lower_text(chars@),
{
    let mut out: Vec<char> = Vec::new();
    let mut i: usize = 0;
    while i < chars.len()
        invariant
            i <= chars.len(),
            out@ == lower_text(chars@).subrange(0, i as int),
        decreases chars.len() - i,
    {
        let c = chars[i];
        let u = c as u32;
        if 0x41 <= u && u <= 0x5A {
            out.push((u as u8 + 0x20) as char);
        } else {
            out.push(c);
        }
        i = i + 1;
        assert(out@ =~= lower_text(chars@).subrange(0, i as int));
    }
    assert(lower_text(chars@).subrange(0, i as int) =~= lower_text(chars@));
    out
}

/// Where `c` first stands in `s`; the length of `s` if it does not.
pub open spec fn position(s: Seq<char>, c: char) -> int
    decreases s.len(),
{
    if s.len() == 0 || s[0] == c {
        0
    } else {
        1 + position(s.drop_first(), c)
    }
}

/// Where `c` first stands; the number of characters if it does not.
pub fn find(chars: &[char], c: char) -> (at: usize)
    ensures
        at == position(chars@, c),
        at <= chars@.len(),
        at < chars@.len() ==> chars@[at as int] == c,
        forall|k: int| 0 <= k < at ==> chars@[k] != c,
{
    let mut i: usize = 0;
    assert(chars@.subrange(0, chars@.len() as int) =~= chars@);
    while i < chars.len() && chars[i] != c
        invariant
            i <= chars.len(),
            forall|k: int| 0 <= k < i ==> chars@[k] != c,
            position(chars@, c) == i + position(
                chars@.subrange(i as int, chars@.len() as int),
                c,
            ),
        decreases chars.len() - i,
    {
        let ghost rest = chars@.subrange(i as int, chars@.len() as int);
        assert(rest[0] == chars@[i as int]);
        assert(rest.drop_first() =~= chars@.subrange(i + 1, chars@.len() as int));
        i = i + 1;
    }
    assert(i < chars.len() ==> chars@.subrange(i as int, chars@.len() as int)[0] == c);
    i
}

/// The characters are decimal digits.
pub open spec fn all_digits(s: Seq<char>) -> bool {
    forall|k: int| 0 <= k < s.len() ==> 0x30 <= #[trigger] s[k] as u32 <= 0x39
}

/// The number that decimal digits spell.
pub open spec fn digits_value(s: Seq<char>) -> nat
    decreases s.len(),
{
    if s.len() == 0 {
        0
    } else {
        digits_value(s.drop_last()) * 10 + (s.last() as u32 - 0x30) as nat
    }
}

/// The digits of a written number: an optional plus sign does not count.
pub open spec fn unsigned_digits(s: Seq<char>) -> Seq<char> {
    if s.len() > 0 && s[0] == '+' {
        s.drop_first()
    } else {
        s
    }
}

/// The number that `s` writes, no greater than `max`.
pub open spec fn number(s: Seq<char>, max: nat) -> Option<nat> {
    let d = unsigned_digits(s);
    if d.len() > 0 && all_digits(d) && digits_value(d) <= max {
        Some(digits_value(d))
    } else {
        None
    }
}

proof fn lemma_digits_grow(s: Seq<char>, i: int)
    requires
        0 <= i <= s.len(),
        all_digits(s),
    ensures
        digits_value(s.subrange(0, i)) <= digits_value(s),
    decreases s.len(),
{
    if i < s.len() {
        lemma_digits_grow(s.drop_last(), i);
        assert(s.drop_last().subrange(0, i) =~= s.subrange(0, i));
    } else {
        assert(s.subrange(0, i) =~= s);
    }
}

/// Reads an unsigned decimal number no greater than `max`.
pub fn parse_number(chars: &[char], max: u64) -> (r: Option<u64>)
    ensures
        r is Some <==> number(chars@, max as nat) is Some,
        r matches Some(n) ==> number(chars@, max as nat) == Some(n as nat),
{
    let mut start: usize = 0;
    if chars.len() > 0 && chars[0] == '+' {
        start = 1;
    }
    let digits = vstd::slice::slice_subrange(chars, start, chars.len());
    let ghost d = unsigned_digits(chars@);
    assert(digits@ =~= d);
    if digits.len() == 0 {
        return None;
    }
    let mut value: u64 = 0;
    let mut i: usize = 0;
    while i < digits.len()
        invariant
            i <= digits.len(),
            digits@ == d,
            d == unsigned_digits(chars@),
            d.len() > 0,
            value == digits_value(d.subrange(0, i as int)),
            value <= max,
            forall|k: int| 0 <= k < i ==> 0x30 <= #[trigger] d[k] as u32 <= 0x39,
        decreases digits.len() - i,
    {
        let u = digits[i] as u32;
        if u < 0x30 || u > 0x39 {
            assert(!all_digits(d));
            return None;
        }
        let v = (u - 0x30) as u64;
        proof {
            assert(d.subrange(0, i + 1).drop_last() =~= d.subrange(0, i as int));
            if all_digits(d) {
                lemma_digits_grow(d, i + 1);
            }
        }
        if v > max || value > max / 10 || value * 10 > max - v {
            assert(digits_value(d.subrange(0, i + 1)) > max);
            return None;
        }
        value = value * 10 + v;
        i = i + 1;
    }
    assert(d.subrange(0, i as int) =~= d);
    Some(value)
}

/// The decimal digits of a number.
pub open spec fn decimal(n: nat) -> Seq<char>
    decreases n,
{
    if n < 10 {
        seq![('0' as u32 + n) as char]
    } else {
        decimal(n / 10).push(('0' as u32 + n % 10) as char)
    }
}

/// The decimal digits of a number, with zeros in front up to a width.
pub open spec fn padded(n: nat, width: nat) -> Seq<char>
    decreases n + width,
{
    if n < 10 && width <= 1 {
        seq![('0' as u32 + n) as char]
    } else {
        padded(n / 10, if width > 0 { (width - 1) as nat } else { 0 }).push(
            ('0' as u32 + n % 10) as char,
        )
    }
}

/// Appends the decimal digits of `n`.
pub fn push_decimal(s: &mut String, n: u64)
    ensures
        final(s)@ == old(s)@ + decimal(n as nat),
    decreases n,
{
    if n >= 10 {
        push_decimal(s, n / 10);
    }
    let d = (n % 10) as u8;
    let c = (0x30u8 + d) as char;
    s.push(c);
    assert(s@ =~= old(s)@ + decimal(n as nat));
}

/// Appends the decimal digits of `n`, with zeros in front up to `width`.
pub fn push_padded(s: &mut String, n: u64, width: u8)
    ensures
        final(s)@ == old(s)@ + padded(n as nat, width as nat),
    decreases n + width,
{
    if n >= 10 || width > 1 {
        push_padded(
            s,
            n / 10,
            if width > 0 {
                width - 1
            } else {
                0
            },
        );
    }
    let d = (n % 10) as u8;
    let c = (0x30u8 + d) as char;
    s.push(c);
    assert(s@ =~= old(s)@ + padded(n as nat, width as nat));
}

} // verus!
