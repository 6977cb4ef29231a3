//! Little-endian integers in byte buffers.

use vstd::prelude::*;
use zerocopy::byteorder::little_endian::{I64, U16, U32, U64};
use zerocopy::FromBytes;

verus! {

/// The number that the `n` bytes at `at` spell, least significant byte first.
pub open spec fn le(b: Seq<u8>, at: int, n: nat) -> nat
    decreases n,
{
    if n == 0 {
        0
    } else {
        b[at] as nat + 256 * le(b, at + 1, (n - 1) as nat)
    }
}

/// The 64-bit two's complement reading of an unsigned number.
pub open spec fn signed(v: nat) -> int {
    if v < 0x8000_0000_0000_0000 {
        v as int
    } else {
        v - 0x1_0000_0000_0000_0000
    }
}

/// The unsigned number with the same 64 bits.
pub open spec fn unsigned(v: int) -> nat {
    if v >= 0 {
        v as nat
    } else {
        (v + 0x1_0000_0000_0000_0000) as nat
    }
}

/// The `n` bytes of a number, least significant byte first.
pub open spec fn le_bytes(v: nat, n: nat) -> Seq<u8>
    decreases n,
{
    if n == 0 {
        seq![]
    } else {
        seq![(v % 256) as u8] + le_bytes(v / 256, (n - 1) as nat)
    }
}

/// The number fits in `n` bytes.
pub open spec fn fits(v: nat, n: nat) -> bool
    decreases n,
{
    if n == 0 {
        v == 0
    } else {
        fits(v / 256, (n - 1) as nat)
    }
}

pub proof fn lemma_fits(v: nat)
    ensures
        v <= 0xFFFF ==> fits(v, 2),
        v <= 0xFFFF_FFFF ==> fits(v, 4),
        v <= 0xFFFF_FFFF_FFFF_FFFF ==> fits(v, 8),
{
    reveal_with_fuel(fits, 9);
}

pub proof fn lemma_le_bytes_len(v: nat, n: nat)
    ensures
        le_bytes(v, n).len() == n,
    decreases n,
{
    if n > 0 {
        lemma_le_bytes_len(v / 256, (n - 1) as nat);
    }
}

/// A number depends only on its own bytes.
pub proof fn lemma_le_same(a: Seq<u8>, i: int, b: Seq<u8>, j: int, n: nat)
    requires
        0 <= i,
        i + n <= a.len(),
        0 <= j,
        j + n <= b.len(),
        a.subrange(i, i + n) == b.subrange(j, j + n),
    ensures
        le(a, i, n) == le(b, j, n),
    decreases n,
{
    if n > 0 {
        let s = a.subrange(i, i + n);
        let t = b.subrange(j, j + n);
        assert(s[0] == a[i] && t[0] == b[j]);
        assert(a.subrange(i + 1, i + n) =~= s.subrange(1, n as int));
        assert(b.subrange(j + 1, j + n) =~= t.subrange(1, n as int));
        lemma_le_same(a, i + 1, b, j + 1, (n - 1) as nat);
    }
}

/// Reading back the bytes of a number gives the number.
pub proof fn lemma_le_inverts(v: nat, n: nat)
    requires
        fits(v, n),
    ensures
        le(le_bytes(v, n), 0, n) == v,
    decreases n,
{
    if n > 0 {
        let tail = le_bytes(v / 256, (n - 1) as nat);
        let all = le_bytes(v, n);
        lemma_le_inverts(v / 256, (n - 1) as nat);
        lemma_le_bytes_len(v / 256, (n - 1) as nat);
        assert(all.subrange(1, n as int) =~= tail.subrange(0, n - 1));
        lemma_le_same(all, 1, tail, 0, (n - 1) as nat);
    }
}

/// A number written anywhere in a buffer is read back from there.
pub proof fn lemma_le_at(b: Seq<u8>, at: int, v: nat, n: nat)
    requires
        fits(v, n),
        0 <= at,
        at + n <= b.len(),
        b.subrange(at, at + n) == le_bytes(v, n),
    ensures
        le(b, at, n) == v,
{
    lemma_le_inverts(v, n);
    lemma_le_bytes_len(v, n);
    assert(le_bytes(v, n).subrange(0, n as int) =~= le_bytes(v, n));
    lemma_le_same(b, at, le_bytes(v, n), 0, n);
}

/// `zerocopy`'s little-endian `U16`, read from the front of the bytes.
#[verifier::external_body]
fn front_u16(b: &[u8]) -> (r: Option<u16>)
    ensures
        r is Some <==> b@.len() >= 2,
        r matches Some(v) ==> v == le(b@, 0, 2),
{
    match U16::read_from_prefix(b) {
        Ok((v, _)) => Some(v.get()),
        Err(_) => None,
    }
}

/// `zerocopy`'s little-endian `U32`, read from the front of the bytes.
#[verifier::external_body]
fn front_u32(b: &[u8]) -> (r: Option<u32>)
    ensures
        r is Some <==> b@.len() >= 4,
        r matches Some(v) ==> v == le(b@, 0, 4),
{
    match U32::read_from_prefix(b) {
        Ok((v, _)) => Some(v.get()),
        Err(_) => None,
    }
}

/// `zerocopy`'s little-endian `U64`, read from the front of the bytes.
#[verifier::external_body]
fn front_u64(b: &[u8]) -> (r: Option<u64>)
    ensures
        r is Some <==> b@.len() >= 8,
        r matches Some(v) ==> v == le(b@, 0, 8),
{
    match U64::read_from_prefix(b) {
        Ok((v, _)) => Some(v.get()),
        Err(_) => None,
    }
}

/// `zerocopy`'s little-endian `I64`, read from the front of the bytes.
#[verifier::external_body]
fn front_i64(b: &[u8]) -> (r: Option<i64>)
    ensures
        r is Some <==> b@.len() >= 8,
        r matches Some(v) ==> v == signed(le(b@, 0, 8)),
{
    match I64::read_from_prefix(b) {
        Ok((v, _)) => Some(v.get()),
        Err(_) => None,
    }
}

proof fn lemma_front(b: Seq<u8>, at: int, n: nat)
    requires
        0 <= at,
        at + n <= b.len(),
    ensures
        le(b.subrange(at, b.len() as int), 0, n) == le(b, at, n),
{
    assert(b.subrange(at, b.len() as int).subrange(0, n as int) =~= b.subrange(at, at + n));
    lemma_le_same(b.subrange(at, b.len() as int), 0, b, at, n);
}

/// The 16-bit number at `at`.
pub fn u16_at(b: &[u8], at: usize) -> (v: u16)
    requires
        at + 2 <= b@.len(),
    ensures
        v == le(b@, at as int, 2),
{
    proof {
        lemma_front(b@, at as int, 2);
    }
    match front_u16(vstd::slice::slice_subrange(b, at, b.len())) {
        Some(v) => v,
        None => 0,
    }
}

/// The 32-bit number at `at`.
pub fn u32_at(b: &[u8], at: usize) -> (v: u32)
    requires
        at + 4 <= b@.len(),
    ensures
        v == le(b@, at as int, 4),
{
    proof {
        lemma_front(b@, at as int, 4);
    }
    match front_u32(vstd::slice::slice_subrange(b, at, b.len())) {
        Some(v) => v,
        None => 0,
    }
}

/// The 64-bit number at `at`.
pub fn u64_at(b: &[u8], at: usize) -> (v: u64)
    requires
        at + 8 <= b@.len(),
    ensures
        v == le(b@, at as int, 8),
{
    proof {
        lemma_front(b@, at as int, 8);
    }
    match front_u64(vstd::slice::slice_subrange(b, at, b.len())) {
        Some(v) => v,
        None => 0,
    }
}

/// The signed 64-bit number at `at`.
pub fn i64_at(b: &[u8], at: usize) -> (v: i64)
    requires
        at + 8 <= b@.len(),
    ensures
        v == signed(le(b@, at as int, 8)),
{
    proof {
        lemma_front(b@, at as int, 8);
    }
    match front_i64(vstd::slice::slice_subrange(b, at, b.len())) {
        Some(v) => v,
        None => 0,
    }
}

/// Appends the `n` low bytes of `v`, least significant first.
pub fn push_le(out: &mut Vec<u8>, v: u64, n: u8)
    ensures
        final(out)@ == old(out)@ + le_bytes(v as nat, n as nat),
    decreases n,
{
    if n > 0 {
        out.push((v % 256) as u8);
        push_le(out, v / 256, n - 1);
    }
    assert(out@ =~= old(out)@ + le_bytes(v as nat, n as nat));
}

/// The unsigned number with the same bits as `v`.
pub fn bits_of(v: i64) -> (r: u64)
    ensures
        r == unsigned(v as int),
{
    if v >= 0 {
        v as u64
    } else {
        (v + i64::MAX + 1) as u64 + 0x8000_0000_0000_0000
    }
}

/// The UTF-16 code units in the `len` bytes at `at`.
pub open spec fn units(b: Seq<u8>, at: int, len: int) -> Seq<u16> {
    Seq::new((len / 2) as nat, |i: int| le(b, at + 2 * i, 2) as u16)
}

/// The UTF-16 code units in the `len` bytes at `at`.
pub fn units_at(b: &[u8], at: usize, len: usize) -> (out: Vec<u16>)
    requires
        at + len <= b@.len(),
        len % 2 == 0,
    ensures
        out@ == units(b@, at as int, len as int),
{
    let mut out: Vec<u16> = Vec::with_capacity(len / 2);
    let n = b.len();
    let mut i: usize = 0;
    while i < len / 2
        invariant
            i <= len / 2,
            at + len <= b@.len(),
            n == b@.len(),
            out@ == units(b@, at as int, len as int).subrange(0, i as int),
        decreases len / 2 - i,
    {
        out.push(u16_at(b, at + 2 * i));
        i = i + 1;
        assert(out@ =~= units(b@, at as int, len as int).subrange(0, i as int));
    }
    assert(units(b@, at as int, len as int).subrange(0, i as int) =~= units(
        b@,
        at as int,
        len as int,
    ));
    out
}

/// The bytes of code units.
pub open spec fn unit_bytes(units: Seq<u16>) -> Seq<u8> {
    Seq::new(
        2 * units.len(),
        |i: int|
            if i % 2 == 0 {
                (units[i / 2] % 256) as u8
            } else {
                (units[i / 2] / 256) as u8
            },
    )
}

/// Code units are read back from their bytes.
pub proof fn lemma_units(b: Seq<u8>, at: int, text: Seq<u16>)
    requires
        0 <= at,
        at + 2 * text.len() <= b.len(),
        b.subrange(at, at + 2 * text.len()) == unit_bytes(text),
    ensures
        units(b, at, 2 * text.len() as int) == text,
{
    let n = 2 * text.len() as int;
    let u = units(b, at, n);
    let w = unit_bytes(text);
    assert forall|i: int| 0 <= i < text.len() implies #[trigger] u[i] == text[i] by {
        reveal_with_fuel(le, 3);
        let s = b.subrange(at, at + n);
        assert(s[2 * i] == b[at + 2 * i]);
        assert(s[2 * i + 1] == b[at + 2 * i + 1]);
        assert(w[2 * i] == (text[i] % 256) as u8);
        assert(w[2 * i + 1] == (text[i] / 256) as u8);
        let x = text[i];
        assert(x % 256 < 256 && x / 256 < 256);
        assert(le(b, at + 2 * i, 2) == x % 256 + 256 * (x / 256));
    }
    assert(u =~= text);
}

/// The bytes are the same.
pub(crate) fn same_bytes(a: &[u8], b: &[u8]) -> (r: bool)
    ensures
        r == (a@ == b@),
{
    if a.len() != b.len() {
        return false;
    }
    let mut i: usize = 0;
    while i < a.len()
        invariant
            i <= a@.len(),
            a@.len() == b@.len(),
            forall|k: int| 0 <= k < i ==> a@[k] == b@[k],
        decreases a@.len() - i,
    {
        if a[i] != b[i] {
            return false;
        }
        i = i + 1;
    }
    assert(a@ =~= b@);
    true
}

} // verus!
