//! Queries of several terms.

use crate::query::laws;
use crate::query::parse;
use crate::query::parse::{ErrorModel, Kind, QueryModel, Tok};
use crate::text;
use vstd::prelude::*;

verus! {

/// What two queries ask for together: the terms of both, and of each filter
/// the one that comes last.
pub open spec fn joined(m: QueryModel, n: QueryModel) -> QueryModel {
    QueryModel {
        name_terms: m.name_terms + n.name_terms,
        path_terms: m.path_terms + n.path_terms,
        wildcards: m.wildcards + n.wildcards,
        ext: if n.ext is Some {
            n.ext
        } else {
            m.ext
        },
        size: if n.size is Some {
            n.size
        } else {
            m.size
        },
        kind: if n.kind is Some {
            n.kind
        } else {
            m.kind
        },
        match_case: m.match_case,
    }
}

proof fn lemma_text_joins(q: QueryModel, e: QueryModel, t: Seq<char>)
    requires
        e.name_terms.len() == 0,
        e.path_terms.len() == 0,
        e.wildcards.len() == 0,
        e.match_case == q.match_case,
        e.ext is None,
        e.size is None,
        e.kind is None || e.kind == q.kind,
    ensures
        parse::with_text(q, t) == joined(q, parse::with_text(e, t)),
        parse::with_text(e, t).match_case == q.match_case,
{
    let a = parse::with_text(q, t);
    let n = parse::with_text(e, t);
    let j = joined(q, n);
    assert(j.name_terms =~= a.name_terms);
    assert(j.path_terms =~= a.path_terms);
    assert(j.wildcards =~= a.wildcards);
    assert(j =~= a);
}

/// A token adds to a query what it asks for by itself.
#[verifier::spinoff_prover]
#[verifier::rlimit(50)]
proof fn lemma_token_joins(q: QueryModel, tok: Tok)
    ensures
        match parse::with_token(parse::empty_query(q.match_case), tok) {
            Ok(n) => parse::with_token(q, tok) == Ok::<QueryModel, ErrorModel>(joined(q, n))
                && n.match_case == q.match_case,
            Err(e) => parse::with_token(q, tok) == Err::<QueryModel, ErrorModel>(e),
        },
{
    let e = parse::empty_query(q.match_case);
    let t = tok.text;
    let colon = text::position(t, ':');
    let value = t.subrange(colon + 1, t.len() as int);
    lemma_text_joins(q, e, t);
    lemma_kind_joins(q, Kind::File, value);
    lemma_kind_joins(q, Kind::Folder, value);
    lemma_joined_twice(q, e, e);
    let x = parse::term_bytes(t, q.match_case);
    let y = parse::term_bytes(value, q.match_case);
    assert(q.name_terms.push(x) =~= q.name_terms + e.name_terms.push(x));
    assert(q.path_terms.push(y) =~= q.path_terms + e.path_terms.push(y));
    assert(q.name_terms + e.name_terms =~= q.name_terms);
    assert(q.path_terms + e.path_terms =~= q.path_terms);
    assert(q.wildcards + e.wildcards =~= q.wildcards);
}

proof fn lemma_kind_joins(q: QueryModel, kind: Kind, t: Seq<char>)
    ensures
        ({
            let e = QueryModel { kind: Some(kind), ..parse::empty_query(q.match_case) };
            &&& parse::with_text(QueryModel { kind: Some(kind), ..q }, t) == joined(
                q,
                parse::with_text(e, t),
            )
            &&& parse::with_text(e, t).match_case == q.match_case
        }),
{
    let e = QueryModel { kind: Some(kind), ..parse::empty_query(q.match_case) };
    let p = QueryModel { kind: Some(kind), ..q };
    lemma_text_joins(p, e, t);
    assert(joined(p, parse::with_text(e, t)) =~= joined(q, parse::with_text(e, t)));
}

proof fn lemma_joined_twice(a: QueryModel, b: QueryModel, c: QueryModel)
    ensures
        joined(joined(a, b), c) == joined(a, joined(b, c)),
        joined(a, parse::empty_query(a.match_case)) == a,
{
    assert(joined(joined(a, b), c) =~= joined(a, joined(b, c)));
    assert(joined(a, parse::empty_query(a.match_case)) =~= a);
}

proof fn lemma_tokens_join(q: QueryModel, toks: Seq<Tok>)
    ensures
        match parse::with_tokens(parse::empty_query(q.match_case), toks) {
            Ok(n) => parse::with_tokens(q, toks) == Ok::<QueryModel, ErrorModel>(joined(q, n))
                && n.match_case == q.match_case,
            Err(e) => parse::with_tokens(q, toks) == Err::<QueryModel, ErrorModel>(e),
        },
    decreases toks.len(),
{
    let e = parse::empty_query(q.match_case);
    if toks.len() == 0 {
        lemma_joined_twice(q, e, e);
    } else {
        lemma_token_joins(q, toks[0]);
        match parse::with_token(e, toks[0]) {
            Ok(n) => {
                let rest = toks.drop_first();
                lemma_tokens_join(joined(q, n), rest);
                lemma_tokens_join(n, rest);
                match parse::with_tokens(e, rest) {
                    Ok(m) => {
                        lemma_joined_twice(q, n, m);
                    },
                    Err(_) => {},
                }
            },
            Err(_) => {},
        }
    }
}

proof fn lemma_both(q: QueryModel, a: Seq<Tok>, b: Seq<Tok>)
    ensures
        parse::with_tokens(q, a + b) == (match parse::with_tokens(q, a) {
            Ok(m) => parse::with_tokens(m, b),
            Err(e) => Err(e),
        }),
    decreases a.len(),
{
    if a.len() == 0 {
        assert(a + b =~= b);
    } else {
        assert((a + b)[0] == a[0]);
        assert((a + b).drop_first() =~= a.drop_first() + b);
        match parse::with_token(q, a[0]) {
            Ok(m) => {
                lemma_both(m, a.drop_first(), b);
            },
            Err(_) => {},
        }
    }
}

/// Quotes in `s` are closed.
pub open spec fn closed_quotes(s: Seq<char>) -> bool {
    !parse::quoted_at(s, s.len() as int)
}

proof fn lemma_quoted_front(a: Seq<char>, b: Seq<char>, i: int)
    requires
        0 <= i <= a.len(),
    ensures
        parse::quoted_at(a + b, i) == parse::quoted_at(a, i),
    decreases i,
{
    if i > 0 {
        assert((a + b)[i - 1] == a[i - 1]);
        lemma_quoted_front(a, b, i - 1);
    }
}

proof fn lemma_quoted_back(a: Seq<char>, b: Seq<char>, i: int)
    requires
        0 <= i <= b.len(),
        closed_quotes(a),
    ensures
        parse::quoted_at(a + b, a.len() + i) == parse::quoted_at(b, i),
    decreases i,
{
    if i > 0 {
        assert((a + b)[a.len() + i - 1] == b[i - 1]);
        lemma_quoted_back(a, b, i - 1);
    } else {
        lemma_quoted_front(a, b, a.len() as int);
    }
}

proof fn lemma_token_moves(a: Seq<char>, b: Seq<char>, x: int, y: int)
    ensures
        0 <= x <= y <= a.len() ==> parse::token_of(a + b, x, y) == parse::token_of(a, x, y),
        0 <= x <= y <= b.len() ==> parse::token_of(a + b, a.len() + x, a.len() + y)
            == parse::token_of(b, x, y),
{
    let s = a + b;
    if 0 <= x < y <= a.len() {
        assert(s.subrange(x, y) =~= a.subrange(x, y));
        if exists|k: int| x <= k < y && s[k] == '"' {
            let k = choose|k: int| x <= k < y && s[k] == '"';
            assert(a[k] == '"');
        }
        if exists|k: int| x <= k < y && a[k] == '"' {
            let k = choose|k: int| x <= k < y && a[k] == '"';
            assert(s[k] == '"');
        }
    }
    let n = a.len() as int;
    if 0 <= x < y <= b.len() {
        assert(s.subrange(n + x, n + y) =~= b.subrange(x, y));
        if exists|k: int| n + x <= k < n + y && s[k] == '"' {
            let k = choose|k: int| n + x <= k < n + y && s[k] == '"';
            assert(b[k - n] == '"');
        }
        if exists|k: int| x <= k < y && b[k] == '"' {
            let k = choose|k: int| x <= k < y && b[k] == '"';
            assert(s[n + k] == '"');
        }
    }
}

proof fn lemma_tokens_back(a: Seq<char>, b: Seq<char>, start: int, i: int)
    requires
        0 <= start <= i <= b.len(),
        closed_quotes(a),
    ensures
        parse::tokens_from(a + b, a.len() + start, a.len() + i) == parse::tokens_from(b, start, i),
    decreases b.len() - i,
{
    lemma_token_moves(a, b, start, i);
    if i < b.len() {
        lemma_quoted_back(a, b, i);
        assert((a + b)[a.len() + i] == b[i]);
        if parse::breaks_at(b, i) {
            lemma_tokens_back(a, b, i + 1, i + 1);
        } else {
            lemma_tokens_back(a, b, start, i + 1);
        }
    }
}

proof fn lemma_tokens_front(a: Seq<char>, c: char, b: Seq<char>, start: int, i: int)
    requires
        0 <= start <= i <= a.len(),
        closed_quotes(a),
        text::is_space(c),
    ensures
        parse::tokens_from(a + (seq![c] + b), start, i) == parse::tokens_from(a, start, i)
            + parse::tokens_of(b),
    decreases a.len() - i,
{
    let t = seq![c] + b;
    let s = a + t;
    lemma_token_moves(a, t, start, i);
    if i < a.len() {
        lemma_quoted_front(a, t, i);
        assert(s[i] == a[i]);
        if parse::breaks_at(a, i) {
            lemma_tokens_front(a, c, b, i + 1, i + 1);
            assert(parse::token_of(a, start, i) + (parse::tokens_from(a, i + 1, i + 1)
                + parse::tokens_of(b)) =~= parse::token_of(a, start, i) + parse::tokens_from(
                a,
                i + 1,
                i + 1,
            ) + parse::tokens_of(b));
        } else {
            lemma_tokens_front(a, c, b, start, i + 1);
        }
    } else {
        lemma_quoted_front(a, t, i);
        assert(s[i] == c);
        assert(parse::breaks_at(s, i));
        let f = a + seq![c];
        assert(f + b =~= s);
        assert(closed_quotes(f)) by {
            lemma_quoted_front(a, seq![c], a.len() as int);
            assert(f[f.len() - 1] == c);
            lemma_no_quote(c);
        }
        lemma_tokens_back(f, b, 0, 0);
    }
}

proof fn lemma_no_quote(c: char)
    requires
        text::is_space(c),
    ensures
        c != '"',
        c != '|',
        c != '!',
{
}

proof fn lemma_case_joins(a: Seq<Tok>, b: Seq<Tok>)
    ensures
        parse::minds_case(a + b) == (if exists|k: int|
            0 <= k < b.len() && !(#[trigger] b[k]).quoted && parse::case_switch(b[k].text) is Some {
            parse::minds_case(b)
        } else {
            parse::minds_case(a)
        }),
    decreases b.len(),
{
    if b.len() == 0 {
        assert(a + b =~= a);
    } else {
        let d = b.drop_last();
        assert((a + b).drop_last() =~= a + d);
        assert((a + b).last() == b.last());
        lemma_case_joins(a, d);
        if !b.last().quoted && parse::case_switch(b.last().text) is Some {
            assert(b[b.len() - 1] == b.last());
        } else {
            if exists|k: int|
                0 <= k < d.len() && !(#[trigger] d[k]).quoted && parse::case_switch(
                    d[k].text,
                ) is Some {
                let k = choose|k: int|
                    0 <= k < d.len() && !(#[trigger] d[k]).quoted && parse::case_switch(
                        d[k].text,
                    ) is Some;
                assert(b[k] == d[k]);
            }
            if exists|k: int|
                0 <= k < b.len() && !(#[trigger] b[k]).quoted && parse::case_switch(
                    b[k].text,
                ) is Some {
                let k = choose|k: int|
                    0 <= k < b.len() && !(#[trigger] b[k]).quoted && parse::case_switch(
                        b[k].text,
                    ) is Some;
                assert(d[k] == b[k]);
            }
        }
    }
}

/// The tokens of two words.
pub(super) proof fn lemma_words_join(a: Seq<char>, c: char, b: Seq<char>)
    requires
        parse::tokens_of(a) == seq![Tok { text: a, quoted: false }],
        parse::operator_free(a),
        laws::word(b),
        text::is_space(c),
        forall|k: int| 0 <= k < a.len() ==> #[trigger] a[k] != '"',
    ensures
        parse::operator_free(a + (seq![c] + b)),
        parse::tokens_of(a + (seq![c] + b)) == seq![Tok { text: a, quoted: false }] + seq![
            Tok { text: b, quoted: false },
        ],
{
    laws::lemma_outside(a, a.len() as int);
    laws::lemma_word(b);
    lemma_operators(a, c, b);
    lemma_tokens_front(a, c, b, 0, 0);
}

/// The query has a `case:` directive.
pub open spec fn directs_case(s: Seq<char>) -> bool {
    exists|k: int|
        0 <= k < parse::tokens_of(s).len() && !(#[trigger] parse::tokens_of(s)[k]).quoted
            && parse::case_switch(parse::tokens_of(s)[k].text) is Some
}

/// Terms with white space between them are asked for together: all terms of
/// the first, then all of the second. Of two filters of one sort the later one
/// counts. An error of the first comes before one of the second. An operator
/// in either is an operator of both.
pub proof fn law_terms_are_asked_for_together(a: Seq<char>, c: char, b: Seq<char>)
    requires
        closed_quotes(a),
        text::is_space(c),
        !directs_case(a),
        !directs_case(b),
    ensures
        parse::operator_free(a + (seq![c] + b)) == (parse::operator_free(a)
            && parse::operator_free(b)),
        laws::asked(a + (seq![c] + b)) == (match laws::asked(a) {
            Err(e) => Err::<QueryModel, ErrorModel>(e),
            Ok(m) => match laws::asked(b) {
                Err(e) => Err(e),
                Ok(n) => Ok(joined(m, n)),
            },
        }),
{
    let s = a + (seq![c] + b);
    let x = parse::tokens_of(a);
    let y = parse::tokens_of(b);
    lemma_operators(a, c, b);
    lemma_tokens_front(a, c, b, 0, 0);
    lemma_case_joins(x, y);
    lemma_case_joins(Seq::empty(), x);
    lemma_case_joins(Seq::empty(), y);
    assert(Seq::<Tok>::empty() + x =~= x);
    assert(Seq::<Tok>::empty() + y =~= y);
    let e = parse::empty_query(false);
    lemma_both(e, x, y);
    lemma_tokens_join(e, x);
    match parse::with_tokens(e, x) {
        Ok(m) => {
            lemma_tokens_join(m, y);
        },
        Err(_) => {},
    }
}

/// The last `case:` directive decides whether case matters, in all of the
/// query.
pub proof fn law_the_last_case_directive_counts(a: Seq<char>, c: char, b: Seq<char>)
    requires
        closed_quotes(a),
        text::is_space(c),
        laws::asked(a + (seq![c] + b)) is Ok,
    ensures
        laws::asked(a + (seq![c] + b))->Ok_0.match_case == parse::minds_case(
            parse::tokens_of(
                if directs_case(b) {
                    b
                } else {
                    a
                },
            ),
        ),
{
    let s = a + (seq![c] + b);
    let x = parse::tokens_of(a);
    let y = parse::tokens_of(b);
    lemma_tokens_front(a, c, b, 0, 0);
    lemma_case_joins(x, y);
    lemma_tokens_join(parse::empty_query(parse::minds_case(x + y)), x + y);
}

/// `case:` and `case:1` make case matter, `case:0` does not, and they ask for
/// nothing else.
pub proof fn law_case_is_a_switch(f: Seq<char>, v: Seq<char>)
    requires
        laws::spells(f, "case"@),
        v.len() == 0 || v == seq!['1'] || v == seq!['0'],
    ensures
        directs_case(laws::call(f, v)),
        parse::operator_free(laws::call(f, v)),
        laws::asked(laws::call(f, v)) == Ok::<QueryModel, ErrorModel>(
            QueryModel { match_case: v != seq!['0'], ..laws::nothing() },
        ),
{
    let t = laws::call(f, v);
    laws::lemma_case_call(f, v);
    assert(parse::tokens_of(t)[0] == (Tok { text: t, quoted: false }));
}

proof fn lemma_operators(a: Seq<char>, c: char, b: Seq<char>)
    requires
        closed_quotes(a),
        text::is_space(c),
    ensures
        parse::operator_free(a + (seq![c] + b)) == (parse::operator_free(a)
            && parse::operator_free(b)),
{
    let t = seq![c] + b;
    let s = a + t;
    let f = a + seq![c];
    assert(f + b =~= s);
    lemma_no_quote(c);
    assert(closed_quotes(f)) by {
        lemma_quoted_front(a, seq![c], a.len() as int);
        assert(f[f.len() - 1] == c);
    }
    assert forall|k: int| 0 <= k < a.len() implies parse::operator_at(s, k)
        == #[trigger] parse::operator_at(a, k) by {
        lemma_quoted_front(a, t, k);
    }
    assert forall|k: int| 0 <= k < b.len() implies parse::operator_at(s, f.len() + k)
        == #[trigger] parse::operator_at(b, k) by {
        lemma_quoted_back(f, b, k);
    }
    assert(s[a.len() as int] == c);
    if parse::operator_free(s) {
        assert forall|k: int| 0 <= k < a.len() implies !parse::operator_at(a, k) by {
            assert(!parse::operator_at(s, k));
        }
        assert forall|k: int| 0 <= k < b.len() implies !parse::operator_at(b, k) by {
            assert(!parse::operator_at(s, f.len() + k));
        }
    }
    if parse::operator_free(a) && parse::operator_free(b) {
        assert forall|k: int| 0 <= k < s.len() implies !parse::operator_at(s, k) by {
            if k < a.len() {
                assert(!parse::operator_at(a, k));
            } else if k > a.len() {
                assert(!parse::operator_at(b, k - f.len()));
            }
        }
    }
}

/// Outside quotes, `|` and `!` are refused, the first of them by name.
pub proof fn law_operators_are_refused(a: Seq<char>, c: char, b: Seq<char>)
    requires
        forall|k: int|
            0 <= k < a.len() ==> #[trigger] a[k] != '"' && a[k] != '|' && a[k] != '!',
        c == '|' || c == '!',
    ensures
        !parse::operator_free(a + (seq![c] + b)),
        parse::first_operator(a + (seq![c] + b), c),
        forall|d: char| #[trigger] parse::first_operator(a + (seq![c] + b), d) ==> d == c,
{
    let s = a + (seq![c] + b);
    let n = a.len() as int;
    assert forall|k: int| 0 <= k < n implies #[trigger] s[k] != '"' && s[k] != '|' && s[k]
        != '!' by {
        assert(s[k] == a[k]);
    }
    laws::lemma_outside(s, n);
    assert(s[n] == c);
    assert(parse::operator_at(s, n));
    assert forall|j: int| 0 <= j < n implies !parse::operator_at(s, j) by {
        assert(s[j] != '|');
    }
    assert forall|d: char| #[trigger] parse::first_operator(s, d) implies d == c by {
        let k = choose|k: int|
            {
                &&& 0 <= k < s.len()
                &&& #[trigger] parse::operator_at(s, k)
                &&& s[k] == d
                &&& forall|j: int| 0 <= j < k ==> !parse::operator_at(s, j)
            };
        if k < n {
            assert(!parse::operator_at(s, k));
        }
        if k > n {
            assert(!parse::operator_at(s, n));
        }
    }
}

/// White space are the space and the controls from tab to carriage return, the
/// next line control, and the spaces and separators of Unicode; nothing else.
pub proof fn law_white_space(c: char)
    ensures
        text::is_space(c) <==> c == ' ' || '\u{9}' <= c <= '\u{D}' || c == '\u{85}' || c == '\u{A0}'
            || c == '\u{1680}' || '\u{2000}' <= c <= '\u{200A}' || c == '\u{2028}' || c
            == '\u{2029}' || c == '\u{202F}' || c == '\u{205F}' || c == '\u{3000}',
{
}

/// The errors in words.
pub proof fn law_errors_in_words(c: char, detail: Seq<char>)
    ensures
        parse::error_text(ErrorModel::Operator(c)) == "operator '"@ + seq![c]
            + "' is not supported yet; quote it to search for it literally (e.g. \"a"@ + seq![c]
            + "b\")"@,
        parse::error_text(ErrorModel::Malformed("size:"@, detail)) == "malformed "@ + "size:"@
            + ": "@ + detail,
{
}

} // verus!
