//! What queries ask for.

use crate::fold;
use crate::query::parse;
use crate::query::parse::{ErrorModel, GlobTok, Kind, ParsedQuery, QueryModel, Tok};
use crate::text;
use crate::wtf8;
use vstd::prelude::*;
use vstd::utf8::*;

verus! {

/// What a query without unquoted operators asks for.
pub open spec fn asked(input: Seq<char>) -> Result<QueryModel, ErrorModel> {
    let toks = parse::tokens_of(input);
    parse::with_tokens(parse::empty_query(parse::minds_case(toks)), toks)
}

/// A word: no white space, no double quote, no operator.
pub open spec fn word(s: Seq<char>) -> bool {
    &&& s.len() > 0
    &&& forall|k: int|
        0 <= k < s.len() ==> !text::is_space(#[trigger] s[k]) && s[k] != '"' && s[k] != '|' && s[k]
            != '!'
}

/// The bytes by which a text is looked for when case does not matter.
pub open spec fn looked_for(s: Seq<char>) -> Seq<u8> {
    fold::folded(encode_utf8(s))
}

/// Nothing is asked for.
pub open spec fn nothing() -> QueryModel {
    QueryModel {
        name_terms: Seq::empty(),
        path_terms: Seq::empty(),
        wildcards: Seq::empty(),
        ext: None,
        size: None,
        kind: None,
        match_case: false,
    }
}

proof fn lemma_unquoted(s: Seq<char>)
    requires
        forall|k: int| 0 <= k < s.len() ==> #[trigger] s[k] != '"',
    ensures
        parse::unquoted(s) == s,
    decreases s.len(),
{
    if s.len() > 0 {
        let d = s.drop_last();
        assert forall|k: int| 0 <= k < d.len() implies #[trigger] d[k] != '"' by {
            assert(s[k] != '"');
        }
        lemma_unquoted(d);
        assert(s[s.len() - 1] != '"');
        assert(d.push(s.last()) =~= s);
    }
}

pub(super) proof fn lemma_outside(s: Seq<char>, i: int)
    requires
        0 <= i <= s.len(),
        forall|k: int| 0 <= k < i ==> #[trigger] s[k] != '"',
    ensures
        !parse::quoted_at(s, i),
    decreases i,
{
    if i > 0 {
        assert(s[i - 1] != '"');
        lemma_outside(s, i - 1);
    }
}

proof fn lemma_word_from(s: Seq<char>, i: int)
    requires
        word(s),
        0 <= i <= s.len(),
    ensures
        parse::tokens_from(s, 0, i) == parse::token_of(s, 0, s.len() as int),
    decreases s.len() - i,
{
    if i < s.len() {
        lemma_outside(s, i);
        assert(!text::is_space(s[i]));
        lemma_word_from(s, i + 1);
    }
}

/// A word is one token, and no operator.
pub(super) proof fn lemma_word(s: Seq<char>)
    requires
        word(s),
    ensures
        parse::operator_free(s),
        parse::tokens_of(s) == seq![Tok { text: s, quoted: false }],
{
    lemma_word_from(s, 0);
    assert forall|k: int| 0 <= k < s.len() implies !parse::operator_at(s, k) by {
        assert(s[k] != '|');
    }
    assert(s.subrange(0, s.len() as int) =~= s);
    lemma_unquoted(s);
    assert(!exists|k: int| 0 <= k < s.len() && s[k] == '"');
    assert(parse::tokens_of(s) =~= seq![Tok { text: s, quoted: false }]);
}

/// What one token asks for.
proof fn lemma_one(t: Tok)
    ensures
        parse::minds_case(seq![t]) == (!t.quoted && parse::case_switch(t.text) == Some(true)),
        parse::with_tokens(parse::empty_query(parse::minds_case(seq![t])), seq![t])
            == parse::with_token(parse::empty_query(parse::minds_case(seq![t])), t),
        !parse::minds_case(Seq::empty()),
        parse::empty_query(false) == nothing(),
{
    reveal_with_fuel(parse::with_tokens, 3);
    reveal_with_fuel(parse::minds_case, 3);
    assert(seq![t].drop_last() =~= Seq::<Tok>::empty());
    assert(seq![t].drop_first() =~= Seq::<Tok>::empty());
    assert(seq![t].last() == t);
    assert(parse::empty_query(false) =~= nothing());
}

pub(super) proof fn lemma_position(a: Seq<char>, c: char, b: Seq<char>)
    requires
        forall|k: int| 0 <= k < a.len() ==> #[trigger] a[k] != c,
    ensures
        text::position(a + seq![c] + b, c) == a.len(),
    decreases a.len(),
{
    let s = a + seq![c] + b;
    if a.len() == 0 {
        assert(s[0] == c);
    } else {
        let d = a.drop_first();
        assert forall|k: int| 0 <= k < d.len() implies #[trigger] d[k] != c by {
            assert(a[k + 1] != c);
        }
        assert(s[0] == a[0]);
        assert(s.drop_first() =~= d + seq![c] + b);
        lemma_position(d, c, b);
    }
}

pub(super) proof fn lemma_no_position(s: Seq<char>, c: char)
    requires
        forall|k: int| 0 <= k < s.len() ==> #[trigger] s[k] != c,
    ensures
        text::position(s, c) == s.len(),
    decreases s.len(),
{
    if s.len() > 0 {
        let d = s.drop_first();
        assert forall|k: int| 0 <= k < d.len() implies #[trigger] d[k] != c by {
            assert(s[k + 1] != c);
        }
        assert(s[0] != c);
        lemma_no_position(d, c);
    }
}

/// A word made of a function, a colon and a value.
pub open spec fn call(f: Seq<char>, v: Seq<char>) -> Seq<char> {
    f + seq![':'] + v
}

/// The text is the name of a function, in any case.
pub open spec fn spells(f: Seq<char>, name: Seq<char>) -> bool {
    f.len() == name.len() && forall|k: int|
        0 <= k < f.len() ==> #[trigger] f[k] == name[k] || f[k] as u32 + 0x20 == name[k] as u32
            && 0x61 <= name[k] as u32 <= 0x7A
}

proof fn lemma_lower(c: char, d: char)
    requires
        c == d || c as u32 + 0x20 == d as u32 && 0x61 <= d as u32 <= 0x7A,
        0x61 <= d as u32 <= 0x7A,
    ensures
        text::lower(c) == d,
{
}

proof fn lemma_colon(c: char)
    ensures
        text::lower(c) == ':' ==> c == ':',
        text::lower(':') == ':',
{
}

pub(super) proof fn lemma_spelled(f: Seq<char>, name: Seq<char>)
    requires
        spells(f, name),
        forall|k: int| 0 <= k < name.len() ==> 0x61 <= #[trigger] name[k] as u32 <= 0x7A,
    ensures
        text::lower_text(f) == name,
        forall|k: int| 0 <= k < f.len() ==> #[trigger] f[k] != ':',
{
    assert forall|k: int| 0 <= k < f.len() implies text::lower_text(f)[k] == name[k] && #[trigger] f[k]
        != ':' by {
        assert(0x61 <= name[k] as u32 <= 0x7A);
        lemma_lower(f[k], name[k]);
        lemma_colon(f[k]);
    }
    assert(text::lower_text(f) =~= name);
}

/// A call of a function other than `case` switches no case.
proof fn lemma_call(f: Seq<char>, name: Seq<char>, v: Seq<char>)
    requires
        spells(f, name),
        forall|k: int| 0 <= k < name.len() ==> 0x61 <= #[trigger] name[k] as u32 <= 0x7A,
        name != "case"@,
    ensures
        parse::case_switch(call(f, v)) is None,
        text::position(call(f, v), ':') == f.len(),
        call(f, v).subrange(0, f.len() as int) == f,
        call(f, v).subrange(f.len() as int + 1, call(f, v).len() as int) == v,
        text::lower_text(f) == name,
{
    let t = call(f, v);
    let l = text::lower_text(t);
    lemma_spelled(f, name);
    lemma_position(f, ':', v);
    assert(t.subrange(0, f.len() as int) =~= f);
    assert(t.subrange(f.len() as int + 1, t.len() as int) =~= v);
    reveal_strlit("case");
    reveal_strlit("case:");
    reveal_strlit("case:1");
    reveal_strlit("case:0");
    lemma_colon(':');
    assert(l[f.len() as int] == ':');
    if l.len() >= 5 && l[0] == 'c' && l[1] == 'a' && l[2] == 's' && l[3] == 'e' && l[4] == ':' {
        assert(f.len() <= 4) by {
            if f.len() > 4 {
                lemma_colon(f[4]);
                assert(t[4] == f[4]);
            }
        }
        assert(f.len() == 4);
        assert forall|k: int| 0 <= k < 4 implies #[trigger] l[k] == name[k] by {
            assert(t[k] == f[k]);
            assert(text::lower_text(f)[k] == name[k]);
        }
        assert(name =~= "case"@);
    }
    assert(l != "case:"@ && l != "case:1"@ && l != "case:0"@);
}

/// A `case:` directive.
pub(super) proof fn lemma_case_call(f: Seq<char>, v: Seq<char>)
    requires
        spells(f, "case"@),
        v.len() == 0 || v == seq!['1'] || v == seq!['0'],
    ensures
        parse::case_switch(call(f, v)) == Some(v != seq!['0']),
        forall|k: int| 0 <= k < call(f, v).len() ==> #[trigger] call(f, v)[k] != '"',
        parse::tokens_of(call(f, v)) == seq![Tok { text: call(f, v), quoted: false }],
        parse::operator_free(call(f, v)),
        asked(call(f, v)) == Ok::<QueryModel, ErrorModel>(
            QueryModel { match_case: v != seq!['0'], ..nothing() },
        ),
{
    let t = call(f, v);
    reveal_strlit("case");
    reveal_strlit("case:");
    reveal_strlit("case:1");
    reveal_strlit("case:0");
    assert forall|k: int| 0 <= k < "case"@.len() implies 0x61 <= #[trigger] "case"@[k] as u32
        <= 0x7A by {}
    lemma_spelled(f, "case"@);
    lemma_colon(':');
    lemma_digit('1');
    lemma_digit('0');
    let l = text::lower_text(t);
    assert(text::lower_text(f).len() == 4);
    assert forall|k: int| 0 <= k < 4 implies #[trigger] l[k] == "case"@[k] by {
        assert(t[k] == f[k]);
        assert(text::lower_text(f)[k] == "case"@[k]);
    }
    assert(t[4] == ':' && l[4] == ':');
    if v.len() == 0 {
        assert(l =~= "case:"@);
    } else {
        assert(t[5] == v[0]);
        if v == seq!['1'] {
            assert(l =~= "case:1"@);
        } else {
            assert(l =~= "case:0"@);
            assert(l[5] == '0');
        }
    }
    assert(seq!['1'][0] == '1' && seq!['0'][0] == '0');
    assert forall|k: int| 0 <= k < t.len() implies !text::is_space(#[trigger] t[k]) && t[k] != '"'
        && t[k] != '|' && t[k] != '!' by {
        if k < 4 {
            assert(t[k] == f[k]);
            assert(f[k] == "case"@[k] || f[k] as u32 + 0x20 == "case"@[k] as u32);
            assert(0x61 <= "case"@[k] as u32 <= 0x7A);
            lemma_letter(f[k]);
        } else if k > 4 {
            assert(t[k] == v[0]);
        } else {
            lemma_digit(':');
        }
    }
    lemma_word(t);
    lemma_one(Tok { text: t, quoted: false });
    assert(asked(t)->Ok_0 =~= (QueryModel { match_case: v != seq!['0'], ..nothing() }));
}

proof fn lemma_digit(c: char)
    requires
        c == '0' || c == '1' || c == ':',
    ensures
        text::lower(c) == c,
        !text::is_space(c),
        c != '"' && c != '|' && c != '!',
{
}

proof fn lemma_letter(c: char)
    requires
        0x41 <= c as u32 <= 0x7A,
    ensures
        !text::is_space(c),
        c != '"' && c != '|' && c != '!',
{
}

proof fn lemma_names()
    ensures
        forall|k: int| 0 <= k < "path"@.len() ==> 0x61 <= #[trigger] "path"@[k] as u32 <= 0x7A,
        forall|k: int| 0 <= k < "ext"@.len() ==> 0x61 <= #[trigger] "ext"@[k] as u32 <= 0x7A,
        forall|k: int| 0 <= k < "size"@.len() ==> 0x61 <= #[trigger] "size"@[k] as u32 <= 0x7A,
        forall|k: int| 0 <= k < "file"@.len() ==> 0x61 <= #[trigger] "file"@[k] as u32 <= 0x7A,
        forall|k: int| 0 <= k < "folder"@.len() ==> 0x61 <= #[trigger] "folder"@[k] as u32 <= 0x7A,
        forall|k: int| 0 <= k < "dir"@.len() ==> 0x61 <= #[trigger] "dir"@[k] as u32 <= 0x7A,
        "path"@ != "case"@ && "ext"@ != "case"@ && "size"@ != "case"@ && "file"@ != "case"@
            && "folder"@ != "case"@ && "dir"@ != "case"@,
        "path"@ != "ext"@ && "path"@ != "size"@,
        "ext"@ != "size"@,
        "file"@ != "ext"@ && "file"@ != "size"@ && "file"@ != "path"@,
        "folder"@ != "ext"@ && "folder"@ != "size"@ && "folder"@ != "path"@ && "folder"@
            != "file"@,
        "dir"@ != "ext"@ && "dir"@ != "size"@ && "dir"@ != "path"@ && "dir"@ != "file"@,
{
    reveal_strlit("case");
    reveal_strlit("path");
    reveal_strlit("ext");
    reveal_strlit("size");
    reveal_strlit("file");
    reveal_strlit("folder");
    reveal_strlit("dir");
    assert("path"@[0] == 'p' && "ext"@[0] == 'e' && "size"@[0] == 's' && "file"@[0] == 'f'
        && "folder"@[0] == 'f' && "dir"@[0] == 'd' && "case"@[0] == 'c');
    assert("folder"@.len() == 6 && "file"@.len() == 4);
}

/// `path:` looks for its value in the path, and asks for nothing else.
pub proof fn law_path_looks_in_the_path(f: Seq<char>, v: Seq<char>)
    requires
        spells(f, "path"@),
        v.len() > 0,
        word(call(f, v)),
    ensures
        parse::operator_free(call(f, v)),
        asked(call(f, v)) == Ok::<QueryModel, ErrorModel>(
            QueryModel { path_terms: seq![looked_for(v)], ..nothing() },
        ),
{
    lemma_names();
    lemma_word(call(f, v));
    lemma_call(f, "path"@, v);
    lemma_one(Tok { text: call(f, v), quoted: false });
    assert(asked(call(f, v))->Ok_0.path_terms =~= seq![looked_for(v)]);
}

/// `size:` sets the range of sizes, and asks for nothing else; a malformed one
/// is an error.
pub proof fn law_size_sets_the_size(f: Seq<char>, v: Seq<char>)
    requires
        spells(f, "size"@),
        word(call(f, v)),
    ensures
        parse::operator_free(call(f, v)),
        asked(call(f, v)) == (match parse::size_expr(v) {
            Ok(range) => Ok::<QueryModel, ErrorModel>(QueryModel { size: Some(range), ..nothing() }),
            Err(d) => Err(ErrorModel::Malformed("size:"@, d)),
        }),
{
    lemma_names();
    lemma_word(call(f, v));
    lemma_call(f, "size"@, v);
    lemma_one(Tok { text: call(f, v), quoted: false });
}

/// `ext:` sets the extensions to accept, and asks for nothing else; without one
/// it asks for nothing.
pub proof fn law_ext_sets_the_extensions(f: Seq<char>, v: Seq<char>)
    requires
        spells(f, "ext"@),
        word(call(f, v)),
    ensures
        parse::operator_free(call(f, v)),
        asked(call(f, v)) == Ok::<QueryModel, ErrorModel>(
            if parse::extensions(v).len() == 0 {
                nothing()
            } else {
                QueryModel { ext: Some(parse::extensions(v)), ..nothing() }
            },
        ),
{
    lemma_names();
    lemma_word(call(f, v));
    lemma_call(f, "ext"@, v);
    lemma_one(Tok { text: call(f, v), quoted: false });
}

/// A text without wildcards is looked for in the path if it has a separator,
/// in the name otherwise; a text with wildcards is a pattern of the name.
pub open spec fn text_asks(t: Seq<char>) -> QueryModel {
    if t.len() == 0 {
        nothing()
    } else if exists|k: int| 0 <= k < t.len() && (#[trigger] t[k] == '*' || t[k] == '?') {
        QueryModel {
            wildcards: seq![parse::glob_tokens(wtf8::decode(looked_for(t)))],
            ..nothing()
        }
    } else if exists|k: int| 0 <= k < t.len() && (#[trigger] t[k] == '\\' || t[k] == '/') {
        QueryModel { path_terms: seq![looked_for(t)], ..nothing() }
    } else {
        QueryModel { name_terms: seq![looked_for(t)], ..nothing() }
    }
}

proof fn lemma_text_asks(q: QueryModel, t: Seq<char>)
    requires
        q.name_terms.len() == 0,
        q.path_terms.len() == 0,
        q.wildcards.len() == 0,
        !q.match_case,
    ensures
        parse::with_text(q, t) == (QueryModel {
            name_terms: text_asks(t).name_terms,
            path_terms: text_asks(t).path_terms,
            wildcards: text_asks(t).wildcards,
            ..q
        }),
{
    let a = text_asks(t);
    let b = parse::with_text(q, t);
    let e = Seq::<Seq<u8>>::empty();
    assert(q.name_terms =~= e && q.path_terms =~= e);
    assert(q.wildcards =~= Seq::<Seq<GlobTok>>::empty());
    if exists|k: int| 0 <= k < t.len() && (#[trigger] t[k] == '*' || t[k] == '?') {
        let k = choose|k: int| 0 <= k < t.len() && (#[trigger] t[k] == '*' || t[k] == '?');
        assert(t.contains(t[k]));
    }
    if exists|k: int| 0 <= k < t.len() && (#[trigger] t[k] == '\\' || t[k] == '/') {
        let k = choose|k: int| 0 <= k < t.len() && (#[trigger] t[k] == '\\' || t[k] == '/');
        assert(t.contains(t[k]));
    }
    assert(a.name_terms =~= b.name_terms);
    assert(a.path_terms =~= b.path_terms);
    assert(a.wildcards =~= b.wildcards);
}

/// `file:` asks for files, `folder:` and `dir:` for directories, with the value
/// as a text.
pub proof fn law_kinds_are_asked_for(f: Seq<char>, v: Seq<char>)
    requires
        spells(f, "file"@) || spells(f, "folder"@) || spells(f, "dir"@),
        word(call(f, v)),
    ensures
        parse::operator_free(call(f, v)),
        asked(call(f, v)) == Ok::<QueryModel, ErrorModel>(
            QueryModel {
                kind: Some(
                    if spells(f, "file"@) {
                        Kind::File
                    } else {
                        Kind::Folder
                    },
                ),
                ..text_asks(v)
            },
        ),
{
    lemma_names();
    lemma_word(call(f, v));
    lemma_one(Tok { text: call(f, v), quoted: false });
    if spells(f, "file"@) {
        lemma_call(f, "file"@, v);
        lemma_text_asks(QueryModel { kind: Some(Kind::File), ..nothing() }, v);
    } else {
        if spells(f, "folder"@) {
            lemma_call(f, "folder"@, v);
        } else {
            lemma_call(f, "dir"@, v);
        }
        lemma_text_asks(QueryModel { kind: Some(Kind::Folder), ..nothing() }, v);
    }
}

/// A word without a colon is a text, and so is one that calls no function.
pub proof fn law_other_words_are_text(t: Seq<char>, f: Seq<char>, v: Seq<char>)
    requires
        word(t),
        forall|k: int| 0 <= k < f.len() ==> #[trigger] f[k] != ':',
        t == f || t == call(f, v) && !spells(f, "ext"@) && !spells(f, "size"@) && !spells(
            f,
            "path"@,
        ) && !spells(f, "file"@) && !spells(f, "folder"@) && !spells(f, "dir"@) && !spells(
            f,
            "case"@,
        ),
    ensures
        parse::operator_free(t),
        asked(t) == Ok::<QueryModel, ErrorModel>(text_asks(t)),
{
    lemma_word(t);
    lemma_one(Tok { text: t, quoted: false });
    reveal_strlit("case");
    reveal_strlit("case:");
    reveal_strlit("case:1");
    reveal_strlit("case:0");
    let l = text::lower_text(t);
    if t == f {
        lemma_no_position(t, ':');
        if l.len() >= 5 && l[4] == ':' {
            lemma_colon(t[4]);
        }
    } else {
        lemma_position(f, ':', v);
        assert(t.subrange(0, f.len() as int) =~= f);
        lemma_unspelled(f, "ext"@);
        lemma_unspelled(f, "size"@);
        lemma_unspelled(f, "path"@);
        lemma_unspelled(f, "file"@);
        lemma_unspelled(f, "folder"@);
        lemma_unspelled(f, "dir"@);
        lemma_unspelled(f, "case"@);
        lemma_colon(':');
        assert(t[f.len() as int] == ':');
        assert(l[f.len() as int] == ':');
        if l.len() >= 5 && l[0] == 'c' && l[1] == 'a' && l[2] == 's' && l[3] == 'e' && l[4] == ':' {
            assert(f.len() <= 4) by {
                if f.len() > 4 {
                    lemma_colon(f[4]);
                    assert(t[4] == f[4]);
                }
            }
            assert(text::lower_text(f) =~= "case"@) by {
                assert forall|k: int| 0 <= k < 4 implies text::lower_text(f)[k] == l[k] by {
                    assert(t[k] == f[k]);
                }
            }
        }
    }
    assert(parse::case_switch(t) is None) by {
        assert(l != "case:"@ && l != "case:1"@ && l != "case:0"@);
    }
    lemma_text_asks(nothing(), t);
}

/// A word without a colon switches no case.
pub(super) proof fn lemma_no_case(t: Seq<char>)
    requires
        forall|k: int| 0 <= k < t.len() ==> #[trigger] t[k] != ':',
    ensures
        parse::case_switch(t) is None,
{
    reveal_strlit("case:");
    reveal_strlit("case:1");
    reveal_strlit("case:0");
    let l = text::lower_text(t);
    if l.len() >= 5 && l[4] == ':' {
        lemma_colon(t[4]);
    }
    assert(l != "case:"@ && l != "case:1"@ && l != "case:0"@);
}

proof fn lemma_unspelled(f: Seq<char>, name: Seq<char>)
    requires
        !spells(f, name),
    ensures
        text::lower_text(f) != name,
{
    if text::lower_text(f) == name {
        assert forall|k: int| 0 <= k < f.len() implies #[trigger] f[k] == name[k] || f[k] as u32
            + 0x20 == name[k] as u32 && 0x61 <= name[k] as u32 <= 0x7A by {
            assert(text::lower_text(f)[k] == text::lower(f[k]));
            lemma_lowered(f[k]);
        }
        assert(spells(f, name));
    }
}

proof fn lemma_lowered(c: char)
    ensures
        text::lower(c) == c || c as u32 + 0x20 == text::lower(c) as u32 && 0x61 <= text::lower(
            c,
        ) as u32 <= 0x7A,
{
}

/// A quoted phrase is looked for in the name as it stands, with spaces,
/// wildcards, colons and operators.
pub proof fn law_phrases_are_taken_literally(v: Seq<char>)
    requires
        forall|k: int| 0 <= k < v.len() ==> #[trigger] v[k] != '"',
    ensures
        parse::operator_free(seq!['"'] + v + seq!['"']),
        asked(seq!['"'] + v + seq!['"']) == Ok::<QueryModel, ErrorModel>(
            QueryModel { name_terms: seq![looked_for(v)], ..nothing() },
        ),
{
    let s = seq!['"'] + v + seq!['"'];
    assert forall|k: int| 1 <= k < s.len() implies parse::quoted_at(s, k) by {
        lemma_inside(v, k);
    }
    assert forall|k: int| 0 <= k < s.len() implies !parse::operator_at(s, k)
        && !parse::breaks_at(s, k) by {
        if k == 0 {
            lemma_quote();
        } else {
            assert(parse::quoted_at(s, k));
        }
    }
    lemma_phrase_from(s, 0);
    assert(s.subrange(0, s.len() as int) =~= s);
    let d = s.drop_last();
    assert(d =~= seq!['"'] + v);
    lemma_phrase_text(v);
    assert(s[0] == '"');
    let t = Tok { text: v, quoted: true };
    assert(parse::unquoted(s) == v);
    assert(parse::tokens_of(s) =~= seq![t]);
    lemma_one(t);
    assert(asked(s)->Ok_0.name_terms =~= seq![looked_for(v)]);
}

proof fn lemma_quote()
    ensures
        !text::is_space('"'),
{
}

proof fn lemma_inside(v: Seq<char>, k: int)
    requires
        forall|k: int| 0 <= k < v.len() ==> #[trigger] v[k] != '"',
        1 <= k <= v.len() + 1,
    ensures
        parse::quoted_at(seq!['"'] + v + seq!['"'], k),
    decreases k,
{
    let s = seq!['"'] + v + seq!['"'];
    if k == 1 {
        assert(s[0] == '"');
        reveal_with_fuel(parse::quoted_at, 2);
    } else {
        assert(s[k - 1] == v[k - 2]);
        lemma_inside(v, k - 1);
    }
}

proof fn lemma_phrase_from(s: Seq<char>, i: int)
    requires
        0 <= i <= s.len(),
        forall|k: int| 0 <= k < s.len() ==> !parse::breaks_at(s, k),
    ensures
        parse::tokens_from(s, 0, i) == parse::token_of(s, 0, s.len() as int),
    decreases s.len() - i,
{
    if i < s.len() {
        assert(!parse::breaks_at(s, i));
        lemma_phrase_from(s, i + 1);
    }
}

proof fn lemma_phrase_text(v: Seq<char>)
    requires
        forall|k: int| 0 <= k < v.len() ==> #[trigger] v[k] != '"',
    ensures
        parse::unquoted(seq!['"'] + v) == v,
    decreases v.len(),
{
    let s = seq!['"'] + v;
    if v.len() == 0 {
        reveal_with_fuel(parse::unquoted, 3);
        assert(s.last() == '"');
        assert(s.drop_last() =~= v);
    } else {
        let d = v.drop_last();
        assert forall|k: int| 0 <= k < d.len() implies #[trigger] d[k] != '"' by {
            assert(v[k] != '"');
        }
        lemma_phrase_text(d);
        assert(s.drop_last() =~= seq!['"'] + d);
        assert(v[v.len() - 1] != '"');
        assert(d.push(v.last()) =~= v);
    }
}

/// What a parsed query asks for are its fields.
pub proof fn law_queries_are_modelled_whole(q: ParsedQuery)
    ensures
        q.model().name_terms.len() == q.name_terms@.len(),
        forall|k: int|
            0 <= k < q.name_terms@.len() ==> #[trigger] q.model().name_terms[k]
                == q.name_terms@[k]@,
        q.model().path_terms.len() == q.path_terms@.len(),
        forall|k: int|
            0 <= k < q.path_terms@.len() ==> #[trigger] q.model().path_terms[k]
                == q.path_terms@[k]@,
        q.model().wildcards.len() == q.wildcards@.len(),
        forall|k: int|
            0 <= k < q.wildcards@.len() ==> #[trigger] q.model().wildcards[k]
                == q.wildcards@[k].tokens(),
        q.model().ext is Some <==> q.filters.ext is Some,
        q.filters.ext matches Some(e) ==> q.model().ext->0.len() == e@.len() && forall|k: int|
            0 <= k < e@.len() ==> #[trigger] q.model().ext->0[k] == e@[k]@,
        q.model().size == q.filters.size,
        q.model().kind == q.filters.kind,
        q.model().match_case == q.match_case,
{
}

proof fn lemma_without_quotes(s: Seq<char>)
    ensures
        parse::unquoted(s) == s.filter(|c: char| c != '"'),
    decreases s.len(),
{
    reveal(Seq::filter);
    if s.len() > 0 {
        lemma_without_quotes(s.drop_last());
    }
}

/// A term with a quote anywhere in it, and no white space outside quotes, is
/// looked for in the name without its quotes, whatever else it holds.
pub proof fn law_quotes_inside_a_term_count(s: Seq<char>, at: int)
    requires
        0 <= at < s.len(),
        s[at] == '"',
        parse::operator_free(s),
        forall|k: int| 0 <= k < s.len() ==> #[trigger] parse::quoted_at(s, k) || !text::is_space(s[k]),
    ensures
        asked(s) == Ok::<QueryModel, ErrorModel>(
            QueryModel {
                name_terms: seq![looked_for(s.filter(|c: char| c != '"'))],
                ..nothing()
            },
        ),
{
    assert forall|k: int| 0 <= k < s.len() implies !parse::breaks_at(s, k) by {
        assert(parse::quoted_at(s, k) || !text::is_space(s[k]));
    }
    lemma_phrase_from(s, 0);
    assert(s.subrange(0, s.len() as int) =~= s);
    lemma_without_quotes(s);
    let t = Tok { text: parse::unquoted(s), quoted: true };
    assert(parse::tokens_of(s) =~= seq![t]);
    lemma_one(t);
    assert(asked(s)->Ok_0.name_terms =~= seq![looked_for(parse::unquoted(s))]);
}

} // verus!
