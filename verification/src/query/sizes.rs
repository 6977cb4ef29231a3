//! Sizes that a query asks for.

use crate::numbers;
use crate::query::laws;
use crate::query::parse;
use crate::query::parse::SizeRange;
use crate::text;
use vstd::prelude::*;

verus! {

/// The bytes that a unit stands for, in any case of its letters.
pub open spec fn unit_bytes(u: Seq<char>) -> Option<int> {
    if u.len() == 0 || laws::spells(u, "b"@) {
        Some(1)
    } else if laws::spells(u, "kb"@) {
        Some(1024)
    } else if laws::spells(u, "mb"@) {
        Some(1048576)
    } else if laws::spells(u, "gb"@) {
        Some(1073741824)
    } else if laws::spells(u, "tb"@) {
        Some(1099511627776)
    } else {
        None
    }
}

/// The text writes a number of bytes, with a unit.
pub open spec fn amount(s: Seq<char>, n: nat, u: Seq<char>) -> bool {
    s == text::decimal(n) + u && unit_bytes(u) is Some
}

proof fn lemma_digit_kept(c: char)
    requires
        '0' <= c <= '9',
    ensures
        text::lower(c) == c,
        !text::is_space(c),
        c != '.' && c != '>' && c != '<' && c != '=',
        !(0x61 <= c as u32 <= 0x7A),
        !(0x41 <= c as u32 <= 0x5A),
{
}

proof fn lemma_letter(c: char)
    requires
        0x41 <= c as u32 <= 0x5A || 0x61 <= c as u32 <= 0x7A,
    ensures
        !text::is_space(c),
        c != '.' && c != '>' && c != '<' && c != '=',
{
}

/// The unit in lower case.
spec fn unit_name(u: Seq<char>) -> Seq<char> {
    if u.len() == 0 {
        Seq::empty()
    } else if laws::spells(u, "b"@) {
        "b"@
    } else if laws::spells(u, "kb"@) {
        "kb"@
    } else if laws::spells(u, "mb"@) {
        "mb"@
    } else if laws::spells(u, "gb"@) {
        "gb"@
    } else {
        "tb"@
    }
}

proof fn lemma_unit(u: Seq<char>)
    requires
        unit_bytes(u) is Some,
    ensures
        text::lower_text(u) == unit_name(u),
        u.len() == unit_name(u).len(),
        forall|k: int|
            0 <= k < u.len() ==> 0x41 <= #[trigger] u[k] as u32 <= 0x5A || 0x61 <= u[k] as u32
                <= 0x7A,
{
    reveal_strlit("b");
    reveal_strlit("kb");
    reveal_strlit("mb");
    reveal_strlit("gb");
    reveal_strlit("tb");
    let name = unit_name(u);
    if u.len() == 0 {
        assert(text::lower_text(u) =~= name);
    } else {
        assert forall|k: int| 0 <= k < name.len() implies 0x61 <= #[trigger] name[k] as u32
            <= 0x7A by {}
        laws::lemma_spelled(u, name);
    }
}

proof fn lemma_ends(d: Seq<char>, name: Seq<char>, suffix: Seq<char>)
    requires
        numbers::digits(d),
        suffix.len() == 1 || suffix.len() == 2,
        forall|k: int| 0 <= k < suffix.len() ==> 0x61 <= #[trigger] suffix[k] as u32 <= 0x7A,
        name.len() <= 2,
    ensures
        text::ends(d + name, suffix) <==> name.len() >= suffix.len() && name.subrange(
            name.len() - suffix.len(),
            name.len() as int,
        ) == suffix,
        name.len() >= suffix.len() && name == suffix ==> (d + name).subrange(
            0,
            (d + name).len() - suffix.len(),
        ) == d,
{
    let l = d + name;
    let n = l.len() as int;
    if name.len() >= suffix.len() {
        assert(l.subrange(n - suffix.len(), n) =~= name.subrange(
            name.len() - suffix.len(),
            name.len() as int,
        ));
        if name == suffix {
            assert(l.subrange(0, n - suffix.len()) =~= d);
        }
    } else if text::ends(l, suffix) {
        let t = l.subrange(n - suffix.len(), n);
        let k = suffix.len() - name.len() - 1;
        assert(t[k] == d[d.len() - 1]);
        lemma_digit_kept(d[d.len() - 1]);
        assert(t[k] == suffix[k]);
    }
}

proof fn lemma_split(d: Seq<char>, u: Seq<char>)
    requires
        numbers::digits(d),
        unit_bytes(u) is Some,
    ensures
        parse::split_unit(d + unit_name(u)).0 == d,
        parse::split_unit(d + unit_name(u)).1 == unit_bytes(u)->0,
{
    reveal_strlit("b");
    reveal_strlit("kb");
    reveal_strlit("mb");
    reveal_strlit("gb");
    reveal_strlit("tb");
    let name = unit_name(u);
    lemma_unit(u);
    assert(name.len() <= 2);
    lemma_ends(d, name, "b"@);
    lemma_ends(d, name, "kb"@);
    lemma_ends(d, name, "mb"@);
    lemma_ends(d, name, "gb"@);
    lemma_ends(d, name, "tb"@);
    let k = "kb"@;
    let m = "mb"@;
    let g = "gb"@;
    let t = "tb"@;
    assert(k[0] == 'k' && m[0] == 'm' && g[0] == 'g' && t[0] == 't');
    if name.len() == 2 {
        assert(name.subrange(0, 2) =~= name);
    }
    if name.len() == 1 {
        assert(name.subrange(0, 1) =~= name);
    }
    if u.len() == 0 {
        assert(d + name =~= d);
    }
}

proof fn lemma_amount(s: Seq<char>, n: nat, u: Seq<char>)
    requires
        amount(s, n, u),
    ensures
        s.len() > 0,
        numbers::digits(text::decimal(n)),
        '0' <= s[0] <= '9',
        forall|k: int|
            0 <= k < s.len() ==> !text::is_space(#[trigger] s[k]) && s[k] != '.' && s[k] != '>'
                && s[k] != '<' && s[k] != '=',
        text::lower_text(s) == text::decimal(n) + unit_name(u),
{
    let d = text::decimal(n);
    numbers::law_numbers_read_back(n);
    lemma_unit(u);
    assert forall|k: int| 0 <= k < s.len() implies !text::is_space(#[trigger] s[k]) && s[k] != '.'
        && s[k] != '>' && s[k] != '<' && s[k] != '=' by {
        if k < d.len() {
            assert(s[k] == d[k]);
            lemma_digit_kept(d[k]);
        } else {
            assert(s[k] == u[k - d.len()]);
            lemma_letter(s[k]);
        }
    }
    assert(s[0] == d[0]);
    let l = text::lower_text(s);
    assert forall|k: int| 0 <= k < s.len() implies l[k] == (d + unit_name(u))[k] by {
        if k < d.len() {
            assert(s[k] == d[k]);
            lemma_digit_kept(d[k]);
        } else {
            assert(s[k] == u[k - d.len()]);
            assert(text::lower_text(u)[k - d.len()] == l[k]);
        }
    }
    assert(l =~= d + unit_name(u));
}

/// A number with a unit counts that many bytes, in any case of the unit, if
/// they can be counted.
pub proof fn law_units_multiply(s: Seq<char>, n: nat, u: Seq<char>)
    requires
        amount(s, n, u),
    ensures
        parse::byte_count(s) == (if n * unit_bytes(u)->0 <= u64::MAX {
            Some((n * unit_bytes(u)->0) as nat)
        } else {
            None
        }),
{
    let d = text::decimal(n);
    lemma_amount(s, n, u);
    lemma_trim(s);
    lemma_split(d, u);
    numbers::law_numbers_read_back(n);
    lemma_digit_kept(d[0]);
    lemma_digit_kept(d[d.len() - 1]);
    lemma_trim(d);
    let f = unit_bytes(u)->0;
    assert(n > u64::MAX ==> n * f > u64::MAX) by (nonlinear_arith)
        requires
            f >= 1,
    ;
    assert(n * f >= 0) by (nonlinear_arith)
        requires
            f >= 1,
    ;
    assert(text::number(d, u64::MAX as nat) == (if n <= u64::MAX {
        Some(n)
    } else {
        None
    }));
}

proof fn lemma_trim(s: Seq<char>)
    requires
        s.len() > 0,
        !text::is_space(s[0]),
        !text::is_space(s[s.len() - 1]),
    ensures
        text::trimmed(s) == s,
{
    let e = Seq::<char>::empty();
    numbers::law_white_space_is_trimmed(e, s, e);
    assert(e + s + e =~= s);
}

/// A text with a digit in it is no named size.
proof fn lemma_unnamed(v: Seq<char>, k: int)
    requires
        0 <= k < v.len(),
        '0' <= v[k] <= '9',
    ensures
        parse::named_size(text::lower_text(v)) is None,
{
    reveal_strlit("empty");
    reveal_strlit("tiny");
    reveal_strlit("small");
    reveal_strlit("medium");
    reveal_strlit("large");
    reveal_strlit("huge");
    reveal_strlit("gigantic");
    let l = text::lower_text(v);
    lemma_digit_kept(v[k]);
    assert(l[k] == v[k]);
    assert(forall|j: int| 0 <= j < "empty"@.len() ==> 0x61 <= #[trigger] "empty"@[j] as u32);
    assert(forall|j: int| 0 <= j < "tiny"@.len() ==> 0x61 <= #[trigger] "tiny"@[j] as u32);
    assert(forall|j: int| 0 <= j < "small"@.len() ==> 0x61 <= #[trigger] "small"@[j] as u32);
    assert(forall|j: int| 0 <= j < "medium"@.len() ==> 0x61 <= #[trigger] "medium"@[j] as u32);
    assert(forall|j: int| 0 <= j < "large"@.len() ==> 0x61 <= #[trigger] "large"@[j] as u32);
    assert(forall|j: int| 0 <= j < "huge"@.len() ==> 0x61 <= #[trigger] "huge"@[j] as u32);
    assert(forall|j: int| 0 <= j < "gigantic"@.len() ==> 0x61 <= #[trigger] "gigantic"@[j] as u32);
}

proof fn lemma_no_dots(s: Seq<char>)
    requires
        forall|k: int| 0 <= k < s.len() ==> #[trigger] s[k] != '.',
    ensures
        parse::dots(s) == s.len(),
    decreases s.len(),
{
    if s.len() >= 2 {
        let d = s.drop_first();
        assert forall|k: int| 0 <= k < d.len() implies #[trigger] d[k] != '.' by {
            assert(s[k + 1] != '.');
        }
        assert(s[0] != '.');
        lemma_no_dots(d);
    }
}

proof fn lemma_dots(a: Seq<char>, b: Seq<char>)
    requires
        forall|k: int| 0 <= k < a.len() ==> #[trigger] a[k] != '.',
    ensures
        parse::dots(a + seq!['.', '.'] + b) == a.len(),
    decreases a.len(),
{
    let s = a + seq!['.', '.'] + b;
    if a.len() == 0 {
        assert(s[0] == '.' && s[1] == '.');
    } else {
        let d = a.drop_first();
        assert forall|k: int| 0 <= k < d.len() implies #[trigger] d[k] != '.' by {
            assert(a[k + 1] != '.');
        }
        assert(s[0] == a[0]);
        assert(s.drop_first() =~= d + seq!['.', '.'] + b);
        lemma_dots(d, b);
    }
}

/// A comparison sign in front of an amount.
proof fn lemma_signed(sign: Seq<char>, s: Seq<char>, n: nat, u: Seq<char>)
    requires
        amount(s, n, u),
        sign.len() <= 2,
        forall|k: int|
            0 <= k < sign.len() ==> #[trigger] sign[k] == '<' || sign[k] == '>' || sign[k] == '=',
    ensures
        text::trimmed(sign + s) == sign + s,
        parse::named_size(text::lower_text(sign + s)) is None,
        parse::dots(sign + s) == (sign + s).len(),
        (sign + s).subrange(sign.len() as int, (sign + s).len() as int) == s,
        text::starts(sign + s, ">="@) == (sign =~= seq!['>', '=']),
        text::starts(sign + s, "<="@) == (sign =~= seq!['<', '=']),
        text::starts(sign + s, ">"@) == (sign.len() > 0 && sign[0] == '>'),
        text::starts(sign + s, "<"@) == (sign.len() > 0 && sign[0] == '<'),
        text::starts(sign + s, "="@) == (sign.len() > 0 && sign[0] == '='),
        ">="@.len() == 2 && "<="@.len() == 2 && ">"@.len() == 1 && "<"@.len() == 1 && "="@.len()
            == 1,
{
    reveal_strlit(">=");
    reveal_strlit("<=");
    reveal_strlit(">");
    reveal_strlit("<");
    reveal_strlit("=");
    lemma_amount(s, n, u);
    let t = sign + s;
    assert(t.subrange(sign.len() as int, t.len() as int) =~= s);
    assert(t[t.len() - 1] == s[s.len() - 1]);
    assert(t[sign.len() as int] == s[0]);
    lemma_signs();
    if sign.len() > 0 {
        assert(t[0] == sign[0]);
    } else {
        assert(t[0] == s[0]);
    }
    lemma_trim(t);
    lemma_unnamed(t, sign.len() as int);
    assert forall|k: int| 0 <= k < t.len() implies #[trigger] t[k] != '.' by {
        if k < sign.len() {
            assert(t[k] == sign[k]);
        } else {
            assert(t[k] == s[k - sign.len()]);
        }
    }
    lemma_no_dots(t);
    assert(text::starts(t, ">"@) == (t[0] == '>')) by {
        assert(t.subrange(0, 1) =~= seq![t[0]]);
        assert(">"@ =~= seq!['>']);
        assert(seq![t[0]][0] == t[0] && seq!['>'][0] == '>');
    }
    assert(text::starts(t, "<"@) == (t[0] == '<')) by {
        assert(t.subrange(0, 1) =~= seq![t[0]]);
        assert("<"@ =~= seq!['<']);
        assert(seq![t[0]][0] == t[0] && seq!['<'][0] == '<');
    }
    assert(text::starts(t, "="@) == (t[0] == '=')) by {
        assert(t.subrange(0, 1) =~= seq![t[0]]);
        assert("="@ =~= seq!['=']);
        assert(seq![t[0]][0] == t[0] && seq!['='][0] == '=');
    }
    if sign.len() == 2 {
        assert(t.subrange(0, 2) =~= sign);
        assert(">="@ =~= seq!['>', '=']);
        assert("<="@ =~= seq!['<', '=']);
    } else {
        if t.len() >= 2 {
            let p = t.subrange(0, 2);
            assert(p[1] == t[1]);
            if sign.len() == 1 {
                assert(t[1] == s[0]);
            } else {
                assert(t[1] == s[1]);
            }
            assert(">="@[1] == '=' && "<="@[1] == '=');
            assert(p != ">="@ && p != "<="@);
        }
    }
}

proof fn lemma_signs()
    ensures
        !text::is_space('<') && !text::is_space('>') && !text::is_space('=') && !text::is_space('.'),
{
}

/// The range from one number of bytes to another.
pub open spec fn from_to(min: int, max: int) -> Result<SizeRange, Seq<char>> {
    Ok(SizeRange { min: min as u64, max: max as u64 })
}

proof fn lemma_seqs()
    ensures
        seq!['='].len() == 1 && seq!['='][0] == '=',
        seq!['>'].len() == 1 && seq!['>'][0] == '>',
        seq!['<'].len() == 1 && seq!['<'][0] == '<',
        seq!['>', '='].len() == 2 && seq!['>', '='][0] == '>' && seq!['>', '='][1] == '=',
        seq!['<', '='].len() == 2 && seq!['<', '='][0] == '<' && seq!['<', '='][1] == '=',
{
}

/// The sizes that compare with a number of bytes as the sign says: equal to it
/// with `=` or no sign, at least or at most as great with `>=` and `<=`, greater
/// or less with `>` and `<`.
pub open spec fn compared(sign: Seq<char>, b: int) -> Result<SizeRange, Seq<char>> {
    if sign.len() == 0 || sign[0] == '=' {
        from_to(b, b)
    } else if sign.len() == 2 {
        if sign[0] == '>' {
            from_to(b, u64::MAX as int)
        } else {
            from_to(0, b)
        }
    } else if sign[0] == '>' {
        from_to(
            if b < u64::MAX {
                b + 1
            } else {
                b
            },
            u64::MAX as int,
        )
    } else {
        from_to(
            0,
            if b > 0 {
                b - 1
            } else {
                0
            },
        )
    }
}

/// An amount asks for the sizes that compare with it as the sign in front says.
/// One that cannot be counted is malformed.
pub proof fn law_sizes_compare(sign: Seq<char>, s: Seq<char>, n: nat, u: Seq<char>)
    requires
        amount(s, n, u),
        sign.len() == 0 || sign == seq!['='] || sign == seq!['>', '='] || sign == seq!['<', '=']
            || sign == seq!['>'] || sign == seq!['<'],
    ensures
        n * unit_bytes(u)->0 <= u64::MAX ==> parse::size_expr(sign + s) == compared(
            sign,
            n * unit_bytes(u)->0,
        ),
        n * unit_bytes(u)->0 > u64::MAX ==> parse::size_expr(sign + s) == Err::<
            SizeRange,
            Seq<char>,
        >(
            if sign == seq!['='] {
                sign + s
            } else {
                s
            },
        ),
{
    law_units_multiply(s, n, u);
    let f = unit_bytes(u)->0;
    assert(n * f >= 0) by (nonlinear_arith)
        requires
            f >= 1,
    ;
    lemma_seqs();
    lemma_signed(sign, s, n, u);
    if sign.len() == 0 {
        assert(sign + s =~= s);
    }
    assert(sign.len() == 2 ==> sign[1] == '=');
    assert((sign =~= seq!['>', '=']) == (sign.len() == 2 && sign[0] == '>'));
    assert((sign =~= seq!['<', '=']) == (sign.len() == 2 && sign[0] == '<'));
    let v = sign + s;
    let b = n * f;
    assert(parse::count_or(s, s) == (if b <= u64::MAX {
        Ok::<u64, Seq<char>>(b as u64)
    } else {
        Err(s)
    }));
    assert(parse::count_or(s, v) == (if b <= u64::MAX {
        Ok::<u64, Seq<char>>(b as u64)
    } else {
        Err(v)
    }));
}

/// Two dots between two amounts ask for what lies between them, both ends
/// counted; without an amount in front the range starts at nothing, and without
/// one behind it has no end.
pub proof fn law_sizes_range(a: Seq<char>, min: u64, b: Seq<char>, max: u64)
    requires
        is_end(a, min, 0),
        is_end(b, max, u64::MAX),
        a.len() + b.len() > 0,
    ensures
        parse::size_expr(a + seq!['.', '.'] + b) == Ok::<SizeRange, Seq<char>>(
            SizeRange { min, max },
        ),
{
    lemma_end(a, min, 0);
    lemma_end(b, max, u64::MAX);
    lemma_ends_meet(a, b);
}

/// The text is an end of a range: a number of bytes with a unit, or nothing.
pub open spec fn is_end(a: Seq<char>, bytes: u64, default: u64) -> bool {
    a.len() == 0 && bytes == default || exists|n: nat, u: Seq<char>| #[trigger]
        amount(a, n, u) && n * unit_bytes(u)->0 == bytes
}

/// A text that can be an end of a range.
spec fn plain(s: Seq<char>) -> bool {
    &&& forall|k: int| 0 <= k < s.len() ==> !text::is_space(#[trigger] s[k]) && s[k] != '.'
    &&& s.len() > 0 ==> '0' <= s[0] <= '9'
}

proof fn lemma_end(a: Seq<char>, bytes: u64, default: u64)
    requires
        is_end(a, bytes, default),
    ensures
        plain(a),
        parse::range_end(a, default) == Ok::<u64, Seq<char>>(bytes),
{
    if a.len() == 0 && bytes == default {
        assert(a =~= Seq::<char>::empty());
        reveal_with_fuel(text::trimmed_front, 2);
        reveal_with_fuel(text::trimmed_back, 2);
    } else {
        let (n, u) = choose|n: nat, u: Seq<char>| #[trigger]
            amount(a, n, u) && n * unit_bytes(u)->0 == bytes;
        law_units_multiply(a, n, u);
        lemma_amount(a, n, u);
        lemma_trim(a);
    }
}

proof fn lemma_ends_meet(a: Seq<char>, b: Seq<char>)
    requires
        plain(a),
        plain(b),
        a.len() + b.len() > 0,
    ensures
        parse::range_end(a, 0) is Ok && parse::range_end(b, u64::MAX) is Ok ==> parse::size_expr(
            a + seq!['.', '.'] + b,
        ) == Ok::<SizeRange, Seq<char>>(
            SizeRange {
                min: parse::range_end(a, 0)->Ok_0,
                max: parse::range_end(b, u64::MAX)->Ok_0,
            },
        ),
{
    let dd = seq!['.', '.'];
    let v = a + dd + b;
    lemma_signs();
    assert(dd[0] == '.' && dd[1] == '.');
    assert(v[0] == (if a.len() > 0 {
        a[0]
    } else {
        '.'
    }));
    assert(v[v.len() - 1] == (if b.len() > 0 {
        b[b.len() - 1]
    } else {
        '.'
    }));
    lemma_trim(v);
    if a.len() > 0 {
        lemma_unnamed(v, 0);
    } else {
        assert(v[2] == b[0]);
        lemma_unnamed(v, 2);
    }
    lemma_dots(a, b);
    assert(v.subrange(0, a.len() as int) =~= a);
    assert(v.subrange(a.len() as int + 2, v.len() as int) =~= b);
}

/// The sizes with a name, in any case of its letters.
pub proof fn law_named_sizes(v: Seq<char>)
    ensures
        laws::spells(v, "empty"@) ==> parse::size_expr(v) == from_to(0, 0),
        laws::spells(v, "tiny"@) ==> parse::size_expr(v) == from_to(0, 10240),
        laws::spells(v, "small"@) ==> parse::size_expr(v) == from_to(10240, 102400),
        laws::spells(v, "medium"@) ==> parse::size_expr(v) == from_to(102400, 1048576),
        laws::spells(v, "large"@) ==> parse::size_expr(v) == from_to(1048576, 16777216),
        laws::spells(v, "huge"@) ==> parse::size_expr(v) == from_to(16777216, 134217728),
        laws::spells(v, "gigantic"@) ==> parse::size_expr(v) == from_to(
            134217728,
            u64::MAX as int,
        ),
{
    reveal_strlit("empty");
    reveal_strlit("tiny");
    reveal_strlit("small");
    reveal_strlit("medium");
    reveal_strlit("large");
    reveal_strlit("huge");
    reveal_strlit("gigantic");
    assert("empty"@[0] == 'e' && "tiny"@[0] == 't' && "small"@[0] == 's' && "medium"@[0] == 'm'
        && "large"@[0] == 'l' && "huge"@[0] == 'h' && "gigantic"@[0] == 'g');
    if laws::spells(v, "empty"@) {
        lemma_named(v, "empty"@);
    }
    if laws::spells(v, "tiny"@) {
        lemma_named(v, "tiny"@);
    }
    if laws::spells(v, "small"@) {
        lemma_named(v, "small"@);
    }
    if laws::spells(v, "medium"@) {
        lemma_named(v, "medium"@);
    }
    if laws::spells(v, "large"@) {
        lemma_named(v, "large"@);
    }
    if laws::spells(v, "huge"@) {
        lemma_named(v, "huge"@);
    }
    if laws::spells(v, "gigantic"@) {
        lemma_named(v, "gigantic"@);
    }
}

proof fn lemma_named(v: Seq<char>, name: Seq<char>)
    requires
        laws::spells(v, name),
        name.len() > 0,
        forall|k: int| 0 <= k < name.len() ==> 0x61 <= #[trigger] name[k] as u32 <= 0x7A,
    ensures
        text::lower_text(text::trimmed(v)) == name,
{
    laws::lemma_spelled(v, name);
    let n = v.len() - 1;
    assert(v[0] == name[0] || v[0] as u32 + 0x20 == name[0] as u32);
    assert(v[n] == name[n] || v[n] as u32 + 0x20 == name[n] as u32);
    lemma_letter(v[0]);
    lemma_letter(v[n]);
    lemma_trim(v);
}

/// White space around a size does not count.
pub proof fn law_white_space_around_a_size(a: Seq<char>, v: Seq<char>, b: Seq<char>)
    requires
        forall|k: int| 0 <= k < a.len() ==> text::is_space(#[trigger] a[k]),
        forall|k: int| 0 <= k < b.len() ==> text::is_space(#[trigger] b[k]),
        v.len() > 0,
        !text::is_space(v[0]),
        !text::is_space(v[v.len() - 1]),
    ensures
        parse::size_expr(a + v + b) == parse::size_expr(v),
{
    numbers::law_white_space_is_trimmed(a, v, b);
    lemma_trim(v);
}

} // verus!
