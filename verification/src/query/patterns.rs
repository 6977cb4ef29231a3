//! What wildcard patterns describe, and lists of extensions.

use crate::query::laws;
use crate::query::joining;
use crate::query::parse;
use crate::query::parse::{ErrorModel, GlobTok, QueryModel, Tok};
use crate::text;
use vstd::prelude::*;
use vstd::utf8::*;

verus! {

/// The text is one that the pattern, given by its code points, describes.
pub open spec fn describes(pattern: Seq<u32>, t: Seq<u32>) -> bool {
    parse::glob(parse::glob_tokens(pattern), t)
}

/// The text can be cut in two that the patterns describe.
pub open spec fn in_two(a: Seq<GlobTok>, b: Seq<GlobTok>, t: Seq<u32>) -> bool {
    exists|k: int|
        0 <= k <= t.len() && parse::glob(a, #[trigger] t.subrange(0, k)) && parse::glob(
            b,
            t.subrange(k, t.len() as int),
        )
}

proof fn lemma_in_two(a: Seq<GlobTok>, b: Seq<GlobTok>, t: Seq<u32>)
    ensures
        parse::glob(a + b, t) == in_two(a, b, t),
    decreases a.len(),
{
    let n = t.len() as int;
    if a.len() == 0 {
        assert(a + b =~= b);
        assert(t.subrange(0, n) =~= t);
        if parse::glob(b, t) {
            assert(t.subrange(0, 0).len() == 0);
        }
        if in_two(a, b, t) {
            let k = choose|k: int|
                0 <= k <= t.len() && parse::glob(a, #[trigger] t.subrange(0, k)) && parse::glob(
                    b,
                    t.subrange(k, n),
                );
            assert(k == 0);
        }
    } else {
        let d = a.drop_first();
        assert((a + b)[0] == a[0]);
        assert((a + b).drop_first() =~= d + b);
        match a[0] {
            GlobTok::AnyRun => {
                if parse::glob(a + b, t) {
                    let j = choose|j: int|
                        0 <= j <= n && parse::glob(d + b, #[trigger] t.subrange(j, n));
                    let rest = t.subrange(j, n);
                    lemma_in_two(d, b, rest);
                    let k = choose|k: int|
                        0 <= k <= rest.len() && parse::glob(d, #[trigger] rest.subrange(0, k))
                            && parse::glob(b, rest.subrange(k, rest.len() as int));
                    let front = t.subrange(0, j + k);
                    assert(front.subrange(j, front.len() as int) =~= rest.subrange(0, k));
                    assert(parse::glob(a, front));
                    assert(t.subrange(j + k, n) =~= rest.subrange(k, rest.len() as int));
                }
                if in_two(a, b, t) {
                    let k = choose|k: int|
                        0 <= k <= n && parse::glob(a, #[trigger] t.subrange(0, k)) && parse::glob(
                            b,
                            t.subrange(k, n),
                        );
                    let front = t.subrange(0, k);
                    let j = choose|j: int|
                        0 <= j <= front.len() && parse::glob(
                            d,
                            #[trigger] front.subrange(j, front.len() as int),
                        );
                    let rest = t.subrange(j, n);
                    lemma_in_two(d, b, rest);
                    assert(rest.subrange(0, k - j) =~= front.subrange(j, front.len() as int));
                    assert(rest.subrange(k - j, rest.len() as int) =~= t.subrange(k, n));
                    assert(in_two(d, b, rest));
                    assert(parse::glob(d + b, t.subrange(j, n)));
                }
            },
            _ => {
                if t.len() > 0 {
                    let rest = t.drop_first();
                    lemma_in_two(d, b, rest);
                    if in_two(d, b, rest) {
                        let k = choose|k: int|
                            0 <= k <= rest.len() && parse::glob(d, #[trigger] rest.subrange(0, k))
                                && parse::glob(b, rest.subrange(k, rest.len() as int));
                        let front = t.subrange(0, k + 1);
                        assert(front.drop_first() =~= rest.subrange(0, k));
                        assert(t.subrange(k + 1, n) =~= rest.subrange(k, rest.len() as int));
                        if parse::glob(a + b, t) {
                            assert(parse::glob(a, front));
                        }
                    }
                }
                if in_two(a, b, t) {
                    let k = choose|k: int|
                        0 <= k <= n && parse::glob(a, #[trigger] t.subrange(0, k)) && parse::glob(
                            b,
                            t.subrange(k, n),
                        );
                    let front = t.subrange(0, k);
                    assert(front.len() > 0);
                    let rest = t.drop_first();
                    assert(front.drop_first() =~= rest.subrange(0, k - 1));
                    assert(rest.subrange(k - 1, rest.len() as int) =~= t.subrange(k, n));
                    assert(in_two(d, b, rest));
                }
            },
        }
    }
}

/// One code point of a pattern.
spec fn element(c: u32) -> GlobTok {
    if c == 0x2A {
        GlobTok::AnyRun
    } else if c == 0x3F {
        GlobTok::AnyOne
    } else {
        GlobTok::Lit(c)
    }
}

spec fn elements(cps: Seq<u32>) -> Seq<GlobTok> {
    cps.map_values(|c: u32| element(c))
}

/// A run of any length in place of two.
proof fn lemma_runs_merge(a: Seq<GlobTok>, t: Seq<u32>)
    ensures
        parse::glob(a.push(GlobTok::AnyRun).push(GlobTok::AnyRun), t) == parse::glob(
            a.push(GlobTok::AnyRun),
            t,
        ),
{
    let r = seq![GlobTok::AnyRun];
    let x = a.push(GlobTok::AnyRun);
    let n = t.len() as int;
    assert(x =~= a + r);
    assert(x.push(GlobTok::AnyRun) =~= x + r);
    lemma_in_two(x, r, t);
    lemma_in_two(a, r, t);
    if parse::glob(x + r, t) {
        let k = choose|k: int|
            0 <= k <= n && parse::glob(x, #[trigger] t.subrange(0, k)) && parse::glob(
                r,
                t.subrange(k, n),
            );
        let front = t.subrange(0, k);
        lemma_in_two(a, r, front);
        let j = choose|j: int|
            0 <= j <= front.len() && parse::glob(a, #[trigger] front.subrange(0, j)) && parse::glob(
                r,
                front.subrange(j, front.len() as int),
            );
        assert(front.subrange(0, j) =~= t.subrange(0, j));
        lemma_run(t.subrange(j, n));
        assert(in_two(a, r, t));
    }
    if parse::glob(x, t) {
        assert(t.subrange(0, n) =~= t);
        lemma_run(t.subrange(n, n));
        assert(in_two(x, r, t));
    }
}

proof fn lemma_run(t: Seq<u32>)
    ensures
        parse::glob(seq![GlobTok::AnyRun], t),
{
    reveal_with_fuel(parse::glob, 2);
    let r = seq![GlobTok::AnyRun];
    let n = t.len() as int;
    assert(r.drop_first() =~= Seq::<GlobTok>::empty());
    assert(t.subrange(n, n).len() == 0);
    assert(parse::glob(r.drop_first(), t.subrange(n, n)));
}

proof fn lemma_elements(cps: Seq<u32>, t: Seq<u32>)
    ensures
        describes(cps, t) == parse::glob(elements(cps), t),
    decreases cps.len(), 0int,
{
    if cps.len() == 0 {
        assert(elements(cps) =~= parse::glob_tokens(cps));
    } else {
        let d = cps.drop_last();
        let before = parse::glob_tokens(d);
        let e = element(cps.last());
        assert(elements(cps) =~= elements(d).push(e));
        assert(elements(d).push(e) =~= elements(d) + seq![e]);
        lemma_in_two(elements(d), seq![e], t);
        lemma_elements_in_two(d, e, t);
        if cps.last() == 0x2A && before.len() > 0 && before.last() == GlobTok::AnyRun {
            let a = before.drop_last();
            assert(a.push(GlobTok::AnyRun) =~= before);
            lemma_runs_merge(a, t);
            assert(before.push(e) =~= before + seq![e]);
            lemma_in_two(before, seq![e], t);
        } else {
            assert(parse::glob_tokens(cps) == before.push(e));
            assert(before.push(e) =~= before + seq![e]);
            lemma_in_two(before, seq![e], t);
        }
    }
}

proof fn lemma_elements_in_two(d: Seq<u32>, e: GlobTok, t: Seq<u32>)
    ensures
        in_two(elements(d), seq![e], t) == in_two(parse::glob_tokens(d), seq![e], t),
    decreases d.len(), 1int,
{
    let n = t.len() as int;
    if in_two(elements(d), seq![e], t) {
        let k = choose|k: int|
            0 <= k <= n && parse::glob(elements(d), #[trigger] t.subrange(0, k)) && parse::glob(
                seq![e],
                t.subrange(k, n),
            );
        lemma_elements(d, t.subrange(0, k));
    }
    if in_two(parse::glob_tokens(d), seq![e], t) {
        let k = choose|k: int|
            0 <= k <= n && parse::glob(parse::glob_tokens(d), #[trigger] t.subrange(0, k))
                && parse::glob(seq![e], t.subrange(k, n));
        lemma_elements(d, t.subrange(0, k));
    }
}

/// In a pattern, `*` stands for any text, `?` for any one code point, and every
/// other code point for itself. An empty pattern describes the empty text.
pub proof fn law_one_point_patterns(c: u32, t: Seq<u32>)
    ensures
        describes(seq![c], t) == (if c == 0x2A {
            true
        } else if c == 0x3F {
            t.len() == 1
        } else {
            t.len() == 1 && t[0] == c
        }),
        describes(Seq::empty(), t) == (t.len() == 0),
{
    reveal_with_fuel(parse::glob, 2);
    lemma_elements(seq![c], t);
    assert(elements(seq![c]) =~= seq![element(c)]);
    assert(seq![element(c)].drop_first() =~= Seq::<GlobTok>::empty());
    if c == 0x2A {
        lemma_run(t);
    }
}

/// Two patterns one behind the other describe the texts that are made of one
/// text of each.
pub proof fn law_patterns_join(a: Seq<u32>, b: Seq<u32>, t: Seq<u32>)
    ensures
        describes(a + b, t) <==> exists|k: int|
            0 <= k <= t.len() && describes(a, #[trigger] t.subrange(0, k)) && describes(
                b,
                t.subrange(k, t.len() as int),
            ),
{
    let n = t.len() as int;
    lemma_elements(a + b, t);
    assert(elements(a + b) =~= elements(a) + elements(b));
    lemma_in_two(elements(a), elements(b), t);
    if describes(a + b, t) {
        let k = choose|k: int|
            0 <= k <= n && parse::glob(elements(a), #[trigger] t.subrange(0, k)) && parse::glob(
                elements(b),
                t.subrange(k, n),
            );
        lemma_elements(a, t.subrange(0, k));
        lemma_elements(b, t.subrange(k, n));
    }
    if exists|k: int|
        0 <= k <= t.len() && describes(a, #[trigger] t.subrange(0, k)) && describes(
            b,
            t.subrange(k, t.len() as int),
        ) {
        let k = choose|k: int|
            0 <= k <= t.len() && describes(a, #[trigger] t.subrange(0, k)) && describes(
                b,
                t.subrange(k, t.len() as int),
            );
        lemma_elements(a, t.subrange(0, k));
        lemma_elements(b, t.subrange(k, n));
    }
}

/// The parts of a list of extensions between semicolons count one after
/// another.
pub proof fn law_extensions_are_listed(a: Seq<char>, b: Seq<char>)
    requires
        forall|k: int| 0 <= k < a.len() ==> #[trigger] a[k] != ';',
    ensures
        parse::extensions(a + seq![';'] + b) == parse::extensions(a) + parse::extensions(b),
        a.len() == 0 ==> parse::extensions(a).len() == 0,
{
    let s = a + seq![';'] + b;
    laws::lemma_position(a, ';', b);
    laws::lemma_no_position(a, ';');
    assert(s.subrange(0, a.len() as int) =~= a);
    assert(s.subrange(a.len() as int + 1, s.len() as int) =~= b);
    assert(a.subrange(0, a.len() as int) =~= a);
    assert(parse::extensions(s) =~= parse::extensions(a) + parse::extensions(b));
}

/// One extension is folded, and dots in front of it do not count.
pub proof fn law_extensions_have_no_dot(dots: Seq<char>, a: Seq<char>)
    requires
        forall|k: int| 0 <= k < dots.len() ==> #[trigger] dots[k] == '.',
        a.len() > 0,
        a[0] != '.',
        forall|k: int| 0 <= k < a.len() ==> #[trigger] a[k] != ';',
    ensures
        parse::extensions(dots + a) == seq![laws::looked_for(a)],
{
    let s = dots + a;
    assert forall|k: int| 0 <= k < s.len() implies #[trigger] s[k] != ';' by {
        if k < dots.len() {
            assert(s[k] == dots[k]);
        } else {
            assert(s[k] == a[k - dots.len()]);
        }
    }
    laws::lemma_no_position(s, ';');
    assert(s.subrange(0, s.len() as int) =~= s);
    lemma_dots(dots, a);
    assert(parse::extensions(s) =~= seq![laws::looked_for(a)]);
}

proof fn lemma_dots(dots: Seq<char>, a: Seq<char>)
    requires
        forall|k: int| 0 <= k < dots.len() ==> #[trigger] dots[k] == '.',
        a.len() > 0,
        a[0] != '.',
    ensures
        parse::without_dots(dots + a) == a,
    decreases dots.len(),
{
    if dots.len() == 0 {
        assert(dots + a =~= a);
    } else {
        let d = dots.drop_first();
        assert forall|k: int| 0 <= k < d.len() implies #[trigger] d[k] == '.' by {
            assert(dots[k + 1] == '.');
        }
        assert((dots + a)[0] == dots[0]);
        assert((dots + a).drop_first() =~= d + a);
        lemma_dots(d, a);
    }
}

/// Where case matters, a text is looked for as it is written.
pub proof fn law_case_keeps_the_text(f: Seq<char>, c: char, t: Seq<char>)
    requires
        laws::spells(f, "case"@),
        text::is_space(c),
        laws::word(t),
        forall|k: int|
            0 <= k < t.len() ==> #[trigger] t[k] != ':' && t[k] != '*' && t[k] != '?',
    ensures
        parse::operator_free(laws::call(f, Seq::empty()) + (seq![c] + t)),
        laws::asked(laws::call(f, Seq::empty()) + (seq![c] + t)) == Ok::<QueryModel, ErrorModel>(
            if exists|k: int| 0 <= k < t.len() && (#[trigger] t[k] == '\\' || t[k] == '/') {
                QueryModel {
                    path_terms: seq![encode_utf8(t)],
                    match_case: true,
                    ..laws::nothing()
                }
            } else {
                QueryModel {
                    name_terms: seq![encode_utf8(t)],
                    match_case: true,
                    ..laws::nothing()
                }
            },
        ),
{
    let e = Seq::<char>::empty();
    let a = laws::call(f, e);
    assert(e != seq!['0']) by {
        assert(seq!['0'].len() == 1);
    }
    laws::lemma_case_call(f, e);
    laws::lemma_word(t);
    joining::lemma_words_join(a, c, t);
    laws::lemma_no_position(t, ':');
    let x = Tok { text: a, quoted: false };
    let y = Tok { text: t, quoted: false };
    let all = seq![x] + seq![y];
    assert(parse::tokens_of(a + (seq![c] + t)) == all);
    laws::lemma_no_case(t);
    reveal_with_fuel(parse::with_tokens, 3);
    reveal_with_fuel(parse::minds_case, 3);
    assert(all.drop_last() =~= seq![x]);
    assert(all.last() == y);
    assert(all[0] == x);
    assert(all.drop_first() =~= seq![y]);
    assert(seq![y].drop_first() =~= Seq::<Tok>::empty());
    assert(parse::minds_case(all));
    let q = parse::empty_query(true);
    assert(parse::with_token(q, x) == Ok::<QueryModel, ErrorModel>(q));
    assert(parse::with_token(q, y) == Ok::<QueryModel, ErrorModel>(parse::with_text(q, t)));
    if t.contains('*') || t.contains('?') {
        let k = choose|k: int| 0 <= k < t.len() && (t[k] == '*' || t[k] == '?');
        assert(t[k] != '*');
    }
    if exists|k: int| 0 <= k < t.len() && (#[trigger] t[k] == '\\' || t[k] == '/') {
        let k = choose|k: int| 0 <= k < t.len() && (#[trigger] t[k] == '\\' || t[k] == '/');
        assert(t.contains(t[k]));
    }
    let w = parse::with_text(q, t);
    assert(seq![encode_utf8(t)] =~= Seq::<Seq<u8>>::empty().push(encode_utf8(t)));
    assert(q.name_terms =~= Seq::<Seq<u8>>::empty() && q.path_terms =~= Seq::<Seq<u8>>::empty());
    assert(q =~= (QueryModel { match_case: true, ..laws::nothing() }));
}

/// No run of literals in a pattern has more bytes than its longest literal, and
/// it stands in the pattern.
pub proof fn law_the_longest_literal_is_longest(
    pat: Seq<GlobTok>,
    best: Seq<u8>,
    a: int,
    b: int,
)
    requires
        parse::longest_run(pat, best),
        0 <= a <= b <= pat.len(),
        forall|k: int| a <= k < b ==> (#[trigger] pat[k]) is Lit,
    ensures
        parse::run_bytes(pat, a, b).len() <= best.len(),
        exists|c: int, d: int|
            0 <= c <= d <= pat.len() && best == #[trigger] parse::run_bytes(pat, c, d) && forall|
                k: int,
            |
                c <= k < d ==> (#[trigger] pat[k]) is Lit,
        best.len() > 0 && parse::run_bytes(pat, a, b) == best ==> exists|c: int, d: int|
            d <= b && best == #[trigger] parse::run_bytes(pat, c, d),
{
    assert(parse::literal_run(pat, a, b));
    let (c, d) = choose|c: int, d: int|
        {
            &&& #[trigger] parse::literal_run(pat, c, d)
            &&& best == parse::run_bytes(pat, c, d)
            &&& forall|x: int, y: int| #[trigger]
                parse::literal_run(pat, x, y) ==> parse::run_bytes(pat, x, y).len() <= best.len()
                    && (y < d ==> parse::run_bytes(pat, x, y).len() < best.len())
        };
    assert(best == parse::run_bytes(pat, c, d));
}

} // verus!
