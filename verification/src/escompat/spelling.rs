//! The ways in which a switch may be spelled.

use crate::escompat::argv;
use crate::escompat::argv::{PlanModel, SwitchAction, TokenKind};
use crate::text;
use crate::types;
use crate::types::{EsColumn, SortDir, SortKey, SortSpec};
use vstd::prelude::*;

verus! {

/// `b` is `a` with some of its dashes left out.
pub open spec fn fewer_dashes(b: Seq<char>, a: Seq<char>) -> bool
    decreases a.len(),
{
    if a.len() == 0 {
        b.len() == 0
    } else {
        ||| b.len() > 0 && b[0] == a[0] && fewer_dashes(b.drop_first(), a.drop_first())
        ||| a[0] == '-' && fewer_dashes(b, a.drop_first())
    }
}

/// A name is one of the name with a dash before it.
proof fn lemma_dash_before(x: Seq<char>, c: Seq<char>)
    requires
        c.len() > 0,
        c[0] == '-',
        argv::names(x, c.drop_first()),
    ensures
        argv::names(x, c),
    decreases c.len(),
{
    let d = c.drop_first();
    if x.len() > 0 && x[0] == '-' {
        if d.len() > 0 && d[0] == '-' {
            lemma_dash_before(x.drop_first(), d);
        }
    }
}

/// A name stays one when dashes are left out.
proof fn lemma_fewer(b: Seq<char>, a: Seq<char>, c: Seq<char>)
    requires
        fewer_dashes(b, a),
    ensures
        argv::names(a, c) ==> argv::names(b, c),
    decreases c.len(),
{
    if argv::names(a, c) && c.len() > 0 {
        let d = c.drop_first();
        if c[0] == '-' {
            if a.len() > 0 && a[0] == '-' {
                if b.len() > 0 && b[0] == a[0] && fewer_dashes(b.drop_first(), a.drop_first()) {
                    lemma_fewer(b.drop_first(), a.drop_first(), d);
                } else {
                    lemma_fewer(b, a.drop_first(), d);
                    lemma_dash_before(b, c);
                }
            } else {
                lemma_fewer(b, a, d);
                lemma_dash_before(b, c);
            }
        } else {
            lemma_fewer(b.drop_first(), a.drop_first(), d);
        }
    }
}

/// Dashes do not count in what a name says.
proof fn lemma_same_letters(b: Seq<char>, a: Seq<char>)
    requires
        fewer_dashes(b, a),
    ensures
        argv::without_dashes(b) == argv::without_dashes(a),
    decreases a.len(),
{
    if a.len() > 0 {
        if b.len() > 0 && b[0] == a[0] && fewer_dashes(b.drop_first(), a.drop_first()) {
            lemma_same_letters(b.drop_first(), a.drop_first());
        } else {
            lemma_same_letters(b, a.drop_first());
        }
    }
}

proof fn lemma_named_letters(x: Seq<char>, c: Seq<char>)
    ensures
        argv::names(x, c) ==> argv::without_dashes(x) == argv::without_dashes(c),
    decreases c.len(),
{
    if argv::names(x, c) && c.len() > 0 {
        let d = c.drop_first();
        if c[0] == '-' {
            if x.len() > 0 && x[0] == '-' {
                lemma_named_letters(x.drop_first(), d);
            } else {
                lemma_named_letters(x, d);
            }
        } else {
            lemma_named_letters(x.drop_first(), d);
        }
    }
}

proof fn lemma_letters_join(a: Seq<char>, b: Seq<char>)
    ensures
        argv::without_dashes(a + b) == argv::without_dashes(a) + argv::without_dashes(b),
    decreases a.len(),
{
    if a.len() == 0 {
        assert(a + b =~= b);
        assert(argv::without_dashes(a) + argv::without_dashes(b) =~= argv::without_dashes(b));
    } else {
        assert((a + b).drop_first() =~= a.drop_first() + b);
        lemma_letters_join(a.drop_first(), b);
        assert(argv::without_dashes(a + b) =~= argv::without_dashes(a) + argv::without_dashes(b));
    }
}

proof fn lemma_letters_only(s: Seq<char>)
    requires
        forall|k: int| 0 <= k < s.len() ==> #[trigger] s[k] != '-',
    ensures
        argv::without_dashes(s) == s,
    decreases s.len(),
{
    if s.len() > 0 {
        let d = s.drop_first();
        assert forall|k: int| 0 <= k < d.len() implies #[trigger] d[k] != '-' by {
            assert(d[k] == s[k + 1]);
        }
        lemma_letters_only(d);
        assert(seq![s[0]] + d =~= s);
    }
}

/// Two words and a dash between them.
proof fn lemma_two_words(whole: Seq<char>, a: Seq<char>, b: Seq<char>)
    requires
        whole == a + seq!['-'] + b,
        argv::without_dashes(a) == a,
        argv::without_dashes(b) == b,
    ensures
        argv::without_dashes(whole) == a + b,
{
    let dash = seq!['-'];
    lemma_letters_join(a + dash, b);
    lemma_letters_join(a, dash);
    assert(dash.drop_first() =~= Seq::<char>::empty());
    reveal_with_fuel(argv::without_dashes, 2);
    assert(argv::without_dashes(dash) =~= Seq::<char>::empty());
    assert(a + Seq::<char>::empty() =~= a);
}

/// Which switch the letters of a name belong to: enough of them to tell the
/// switches apart.
spec fn row_of(w: Seq<char>) -> int {
    let n = w.len();
    if n == 1 || n == 10 {
        1
    } else if n == 4 && w[0] == 'p' {
        2
    } else if n == 4 && w[0] == 's' && w[1] == 'i' {
        3
    } else if n == 2 || n == 12 {
        4
    } else if n == 4 && w[0] == 's' {
        5
    } else if n == 9 && w[0] == 'e' {
        6
    } else if n == 7 {
        7
    } else if n == 9 && w[0] == 'n' {
        8
    } else if n == 8 && w[0] == 'n' {
        9
    } else if n == 13 {
        10
    } else if n == 4 || n == 9 {
        11
    } else {
        sort_row(w)
    }
}

/// Which sort the letters of a name belong to, key and direction.
spec fn sort_row(w: Seq<char>) -> int {
    let n = w.len();
    let form = if n == 8 || n == 6 || (n == 16 && w[5] == 'a') {
        0int
    } else if n == 17 || n == 15 || n == 25 {
        1
    } else {
        2
    };
    let key = if w[4] == 'n' {
        20int
    } else if w[4] == 'p' {
        30
    } else if w[4] == 's' {
        40
    } else {
        50
    };
    key + form
}

/// The sort of a row.
spec fn sort_of_row(key: SortKey, form: int) -> SwitchAction {
    SwitchAction::SortFixed(
        if form == 0 {
            SortSpec { key, dir: types::default_dir(key) }
        } else if form == 1 {
            SortSpec { key, dir: SortDir::Asc }
        } else {
            SortSpec { key, dir: SortDir::Desc }
        },
    )
}

/// The switch of a row.
spec fn action_of_row(r: int) -> SwitchAction {
    if r == 1 {
        SwitchAction::Limit
    } else if r == 2 {
        SwitchAction::Scope
    } else if r == 3 {
        SwitchAction::Column(EsColumn::Size)
    } else if r == 4 {
        SwitchAction::Column(EsColumn::DateModified)
    } else if r == 5 {
        SwitchAction::SortParam
    } else if r == 6 {
        SwitchAction::ExportCsv
    } else if r == 7 {
        SwitchAction::Utf8Bom
    } else if r == 8 {
        SwitchAction::NoUtf8Bom
    } else if r == 9 {
        SwitchAction::NoHeader
    } else if r == 10 {
        SwitchAction::NoDoubleQuote
    } else if r == 11 {
        SwitchAction::MatchCase
    } else if r < 30 {
        sort_of_row(SortKey::Name, r - 20)
    } else if r < 40 {
        sort_of_row(SortKey::Path, r - 30)
    } else if r < 50 {
        sort_of_row(SortKey::Size, r - 40)
    } else {
        sort_of_row(SortKey::DateModified, r - 50)
    }
}

/// The words of which names are made hold no dash.
proof fn lemma_words()
    ensures
        argv::without_dashes("ascending"@) == "ascending"@,
        argv::without_dashes("bom"@) == "bom"@,
        argv::without_dashes("case"@) == "case"@,
        argv::without_dashes("csv"@) == "csv"@,
        argv::without_dashes("date"@) == "date"@,
        argv::without_dashes("descending"@) == "descending"@,
        argv::without_dashes("dm"@) == "dm"@,
        argv::without_dashes("double"@) == "double"@,
        argv::without_dashes("export"@) == "export"@,
        argv::without_dashes("header"@) == "header"@,
        argv::without_dashes("match"@) == "match"@,
        argv::without_dashes("max"@) == "max"@,
        argv::without_dashes("modified"@) == "modified"@,
        argv::without_dashes("n"@) == "n"@,
        argv::without_dashes("name"@) == "name"@,
        argv::without_dashes("no"@) == "no"@,
        argv::without_dashes("path"@) == "path"@,
        argv::without_dashes("quote"@) == "quote"@,
        argv::without_dashes("results"@) == "results"@,
        argv::without_dashes("size"@) == "size"@,
        argv::without_dashes("sort"@) == "sort"@,
        argv::without_dashes("utf8"@) == "utf8"@,
{
    reveal_strlit("ascending");
    lemma_letters_only("ascending"@);
    reveal_strlit("bom");
    lemma_letters_only("bom"@);
    reveal_strlit("case");
    lemma_letters_only("case"@);
    reveal_strlit("csv");
    lemma_letters_only("csv"@);
    reveal_strlit("date");
    lemma_letters_only("date"@);
    reveal_strlit("descending");
    lemma_letters_only("descending"@);
    reveal_strlit("dm");
    lemma_letters_only("dm"@);
    reveal_strlit("double");
    lemma_letters_only("double"@);
    reveal_strlit("export");
    lemma_letters_only("export"@);
    reveal_strlit("header");
    lemma_letters_only("header"@);
    reveal_strlit("match");
    lemma_letters_only("match"@);
    reveal_strlit("max");
    lemma_letters_only("max"@);
    reveal_strlit("modified");
    lemma_letters_only("modified"@);
    reveal_strlit("n");
    lemma_letters_only("n"@);
    reveal_strlit("name");
    lemma_letters_only("name"@);
    reveal_strlit("no");
    lemma_letters_only("no"@);
    reveal_strlit("path");
    lemma_letters_only("path"@);
    reveal_strlit("quote");
    lemma_letters_only("quote"@);
    reveal_strlit("results");
    lemma_letters_only("results"@);
    reveal_strlit("size");
    lemma_letters_only("size"@);
    reveal_strlit("sort");
    lemma_letters_only("sort"@);
    reveal_strlit("utf8");
    lemma_letters_only("utf8"@);
}

proof fn lemma_row_n(x: Seq<char>)
    ensures
        argv::names(x, "n"@) ==> row_of(argv::without_dashes(x)) == 1
            && x.len() > 0 && x[0] != '-',
{
    let c = "n"@;
    lemma_named_letters(x, c);
    lemma_words();
    reveal_strlit("n");
}

proof fn lemma_row_max_results(x: Seq<char>)
    ensures
        argv::names(x, "max-results"@) ==> row_of(argv::without_dashes(x)) == 1
            && x.len() > 0 && x[0] != '-',
{
    let c = "max-results"@;
    lemma_named_letters(x, c);
    lemma_words();
    reveal_strlit("max-results");
    reveal_strlit("max");
    reveal_strlit("results");
    assert(c =~= "max"@ + seq!['-'] + "results"@);
    lemma_two_words(c, "max"@, "results"@);
    let w = "max"@ + "results"@;
    assert(w[0] == "max"@[0]);
}

proof fn lemma_row_path(x: Seq<char>)
    ensures
        argv::names(x, "path"@) ==> row_of(argv::without_dashes(x)) == 2
            && x.len() > 0 && x[0] != '-',
{
    let c = "path"@;
    lemma_named_letters(x, c);
    lemma_words();
    reveal_strlit("path");
}

proof fn lemma_row_size(x: Seq<char>)
    ensures
        argv::names(x, "size"@) ==> row_of(argv::without_dashes(x)) == 3
            && x.len() > 0 && x[0] != '-',
{
    let c = "size"@;
    lemma_named_letters(x, c);
    lemma_words();
    reveal_strlit("size");
}

proof fn lemma_row_dm(x: Seq<char>)
    ensures
        argv::names(x, "dm"@) ==> row_of(argv::without_dashes(x)) == 4
            && x.len() > 0 && x[0] != '-',
{
    let c = "dm"@;
    lemma_named_letters(x, c);
    lemma_words();
    reveal_strlit("dm");
}

proof fn lemma_row_date_modified(x: Seq<char>)
    ensures
        argv::names(x, "date-modified"@) ==> row_of(argv::without_dashes(x)) == 4
            && x.len() > 0 && x[0] != '-',
{
    let c = "date-modified"@;
    lemma_named_letters(x, c);
    lemma_words();
    reveal_strlit("date-modified");
    reveal_strlit("date");
    reveal_strlit("modified");
    assert(c =~= "date"@ + seq!['-'] + "modified"@);
    lemma_two_words(c, "date"@, "modified"@);
    let w = "date"@ + "modified"@;
    assert(w[0] == "date"@[0]);
}

proof fn lemma_row_sort(x: Seq<char>)
    ensures
        argv::names(x, "sort"@) ==> row_of(argv::without_dashes(x)) == 5
            && x.len() > 0 && x[0] != '-',
{
    let c = "sort"@;
    lemma_named_letters(x, c);
    lemma_words();
    reveal_strlit("sort");
}

proof fn lemma_row_export_csv(x: Seq<char>)
    ensures
        argv::names(x, "export-csv"@) ==> row_of(argv::without_dashes(x)) == 6
            && x.len() > 0 && x[0] != '-',
{
    let c = "export-csv"@;
    lemma_named_letters(x, c);
    lemma_words();
    reveal_strlit("export-csv");
    reveal_strlit("csv");
    reveal_strlit("export");
    assert(c =~= "export"@ + seq!['-'] + "csv"@);
    lemma_two_words(c, "export"@, "csv"@);
    let w = "export"@ + "csv"@;
    assert(w[0] == "export"@[0]);
}

proof fn lemma_row_utf8_bom(x: Seq<char>)
    ensures
        argv::names(x, "utf8-bom"@) ==> row_of(argv::without_dashes(x)) == 7
            && x.len() > 0 && x[0] != '-',
{
    let c = "utf8-bom"@;
    lemma_named_letters(x, c);
    lemma_words();
    reveal_strlit("utf8-bom");
    reveal_strlit("bom");
    reveal_strlit("utf8");
    assert(c =~= "utf8"@ + seq!['-'] + "bom"@);
    lemma_two_words(c, "utf8"@, "bom"@);
    let w = "utf8"@ + "bom"@;
    assert(w[0] == "utf8"@[0]);
}

proof fn lemma_row_no_utf8_bom(x: Seq<char>)
    ensures
        argv::names(x, "no-utf8-bom"@) ==> row_of(argv::without_dashes(x)) == 8
            && x.len() > 0 && x[0] != '-',
{
    let c = "no-utf8-bom"@;
    lemma_named_letters(x, c);
    lemma_words();
    reveal_strlit("no-utf8-bom");
    reveal_strlit("bom");
    reveal_strlit("no");
    reveal_strlit("utf8");
    let front = "no"@ + seq!['-'] + "utf8"@;
    let letters = "no"@ + "utf8"@;
    lemma_two_words(front, "no"@, "utf8"@);
    assert(c =~= front + (seq!['-'] + "bom"@));
    lemma_letters_join(front, seq!['-'] + "bom"@);
    assert(seq!['-'] + "bom"@ =~= Seq::<char>::empty() + seq!['-'] + "bom"@);
    lemma_letters_only(Seq::<char>::empty());
    lemma_two_words(seq!['-'] + "bom"@, Seq::empty(), "bom"@);
    let w = letters + (Seq::<char>::empty() + "bom"@);
    assert(w[0] == "no"@[0]);
}

proof fn lemma_row_no_header(x: Seq<char>)
    ensures
        argv::names(x, "no-header"@) ==> row_of(argv::without_dashes(x)) == 9
            && x.len() > 0 && x[0] != '-',
{
    let c = "no-header"@;
    lemma_named_letters(x, c);
    lemma_words();
    reveal_strlit("no-header");
    reveal_strlit("header");
    reveal_strlit("no");
    assert(c =~= "no"@ + seq!['-'] + "header"@);
    lemma_two_words(c, "no"@, "header"@);
    let w = "no"@ + "header"@;
    assert(w[0] == "no"@[0]);
}

proof fn lemma_row_no_double_quote(x: Seq<char>)
    ensures
        argv::names(x, "no-double-quote"@) ==> row_of(argv::without_dashes(x)) == 10
            && x.len() > 0 && x[0] != '-',
{
    let c = "no-double-quote"@;
    lemma_named_letters(x, c);
    lemma_words();
    reveal_strlit("no-double-quote");
    reveal_strlit("double");
    reveal_strlit("no");
    reveal_strlit("quote");
    let front = "no"@ + seq!['-'] + "double"@;
    let letters = "no"@ + "double"@;
    lemma_two_words(front, "no"@, "double"@);
    assert(c =~= front + (seq!['-'] + "quote"@));
    lemma_letters_join(front, seq!['-'] + "quote"@);
    assert(seq!['-'] + "quote"@ =~= Seq::<char>::empty() + seq!['-'] + "quote"@);
    lemma_letters_only(Seq::<char>::empty());
    lemma_two_words(seq!['-'] + "quote"@, Seq::empty(), "quote"@);
    let w = letters + (Seq::<char>::empty() + "quote"@);
    assert(w[0] == "no"@[0]);
}

proof fn lemma_row_case(x: Seq<char>)
    ensures
        argv::names(x, "case"@) ==> row_of(argv::without_dashes(x)) == 11
            && x.len() > 0 && x[0] != '-',
{
    let c = "case"@;
    lemma_named_letters(x, c);
    lemma_words();
    reveal_strlit("case");
}

proof fn lemma_row_match_case(x: Seq<char>)
    ensures
        argv::names(x, "match-case"@) ==> row_of(argv::without_dashes(x)) == 11
            && x.len() > 0 && x[0] != '-',
{
    let c = "match-case"@;
    lemma_named_letters(x, c);
    lemma_words();
    reveal_strlit("match-case");
    reveal_strlit("case");
    reveal_strlit("match");
    assert(c =~= "match"@ + seq!['-'] + "case"@);
    lemma_two_words(c, "match"@, "case"@);
    let w = "match"@ + "case"@;
    assert(w[0] == "match"@[0]);
}

/// The letters of a sort name, in each of its forms.
proof fn lemma_sort_letters(x: Seq<char>, base: Seq<char>, letters: Seq<char>)
    requires
        argv::without_dashes(base) == letters,
        letters.len() >= 2,
    ensures
        ({
            let front = "sort-"@ + base;
            let w = argv::without_dashes(x);
            &&& argv::names(x, front) ==> w == "sort"@ + letters && x.len() > 0 && x[0] != '-'
            &&& argv::names(x, front + "-ascending"@) ==> w == "sort"@ + letters + "ascending"@
                && x.len() > 0 && x[0] != '-'
            &&& argv::names(x, front + "-descending"@) ==> w == "sort"@ + letters + "descending"@
                && x.len() > 0 && x[0] != '-'
        }),
{
    let none = Seq::<char>::empty();
    let front = "sort-"@ + base;
    lemma_words();
    lemma_letters_only(none);
    reveal_strlit("sort-");
    reveal_strlit("sort");
    reveal_strlit("ascending");
    reveal_strlit("descending");
    reveal_strlit("-ascending");
    reveal_strlit("-descending");
    assert("sort-"@ =~= "sort"@ + seq!['-'] + none);
    lemma_two_words("sort-"@, "sort"@, none);
    assert("sort"@ + none =~= "sort"@);
    lemma_letters_join("sort-"@, base);
    assert("-ascending"@ =~= none + seq!['-'] + "ascending"@);
    lemma_two_words("-ascending"@, none, "ascending"@);
    assert(none + "ascending"@ =~= "ascending"@);
    lemma_letters_join(front, "-ascending"@);
    assert("-descending"@ =~= none + seq!['-'] + "descending"@);
    lemma_two_words("-descending"@, none, "descending"@);
    assert(none + "descending"@ =~= "descending"@);
    lemma_letters_join(front, "-descending"@);
    lemma_named_letters(x, front);
    lemma_named_letters(x, front + "-ascending"@);
    lemma_named_letters(x, front + "-descending"@);
    assert(front[0] == 's');
    assert((front + "-ascending"@)[0] == 's');
    assert((front + "-descending"@)[0] == 's');
}

/// A sort name has the row of its key and form.
proof fn lemma_sort_form(
    x: Seq<char>,
    base: Seq<char>,
    letters: Seq<char>,
    key: SortKey,
    r: int,
)
    requires
        argv::without_dashes(base) == letters,
        letters.len() == 4 && ((key == SortKey::Name && r == 20 && letters[0] == 'n') || (key
            == SortKey::Path && r == 30 && letters[0] == 'p') || (key == SortKey::Size && r == 40
            && letters[0] == 's')) || key == SortKey::DateModified && r == 50 && letters[0] == 'd'
            && ((letters.len() == 2 && letters[1] == 'm') || (letters.len() == 12 && letters[1]
            == 'a')),
    ensures
        argv::sort_form(x, "sort-"@ + base, key) matches Some(spec) ==> SwitchAction::SortFixed(
            spec,
        ) == action_of_row(row_of(argv::without_dashes(x))) && x.len() > 0 && x[0] != '-',
{
    lemma_sort_letters(x, base, letters);
    reveal_strlit("sort");
    reveal_strlit("ascending");
    reveal_strlit("descending");
    let a = "sort"@ + letters;
    let b = a + "ascending"@;
    let c = a + "descending"@;
    assert(a[0] == 's' && a[4] == letters[0] && a[5] == letters[1]);
    assert(b[0] == 's' && b[4] == letters[0] && b[5] == letters[1]);
    assert(c[0] == 's' && c[4] == letters[0] && c[5] == letters[1]);
}

/// A switch is told by the letters of its name.
proof fn lemma_switch_by_letters(x: Seq<char>)
    ensures
        argv::switch_of(x) matches Some(action) ==> action == action_of_row(
            row_of(argv::without_dashes(x)),
        ) && x.len() > 0 && x[0] != '-',
{
    reveal(argv::switch_of);
    lemma_row_n(x);
    lemma_row_max_results(x);
    lemma_row_path(x);
    lemma_row_size(x);
    lemma_row_dm(x);
    lemma_row_date_modified(x);
    lemma_row_sort(x);
    lemma_row_export_csv(x);
    lemma_row_utf8_bom(x);
    lemma_row_no_utf8_bom(x);
    lemma_row_no_header(x);
    lemma_row_no_double_quote(x);
    lemma_row_case(x);
    lemma_row_match_case(x);
    lemma_words();
    reveal_strlit("name");
    reveal_strlit("path");
    reveal_strlit("size");
    reveal_strlit("dm");
    reveal_strlit("date");
    reveal_strlit("modified");
    reveal_strlit("date-modified");
    lemma_sort_form(x, "name"@, "name"@, SortKey::Name, 20);
    lemma_sort_form(x, "path"@, "path"@, SortKey::Path, 30);
    lemma_sort_form(x, "size"@, "size"@, SortKey::Size, 40);
    lemma_sort_form(x, "dm"@, "dm"@, SortKey::DateModified, 50);
    assert("date-modified"@ =~= "date"@ + seq!['-'] + "modified"@);
    lemma_two_words("date-modified"@, "date"@, "modified"@);
    lemma_sort_form(
        x,
        "date-modified"@,
        "date"@ + "modified"@,
        SortKey::DateModified,
        50,
    );
}

proof fn lemma_sort_fewer(b: Seq<char>, a: Seq<char>, base: Seq<char>, key: SortKey)
    requires
        fewer_dashes(b, a),
    ensures
        argv::sort_form(a, base, key) is Some ==> argv::sort_form(b, base, key) is Some,
{
    lemma_fewer(b, a, base);
    lemma_fewer(b, a, base + "-ascending"@);
    lemma_fewer(b, a, base + "-descending"@);
}

/// A switch is the same one whichever of its inner dashes are left out.
pub proof fn law_any_dashes_may_be_left_out(b: Seq<char>, a: Seq<char>)
    requires
        fewer_dashes(b, a),
        argv::switch_of(a) is Some,
    ensures
        argv::switch_of(b) == argv::switch_of(a),
{
    lemma_same_letters(b, a);
    lemma_switch_by_letters(a);
    lemma_switch_by_letters(b);
    reveal(argv::switch_of);
    lemma_fewer(b, a, "n"@);
    lemma_fewer(b, a, "max-results"@);
    lemma_fewer(b, a, "path"@);
    lemma_fewer(b, a, "size"@);
    lemma_fewer(b, a, "dm"@);
    lemma_fewer(b, a, "date-modified"@);
    lemma_fewer(b, a, "sort"@);
    lemma_fewer(b, a, "export-csv"@);
    lemma_fewer(b, a, "utf8-bom"@);
    lemma_fewer(b, a, "no-utf8-bom"@);
    lemma_fewer(b, a, "no-header"@);
    lemma_fewer(b, a, "no-double-quote"@);
    lemma_fewer(b, a, "case"@);
    lemma_fewer(b, a, "match-case"@);
    lemma_sort_fewer(b, a, "sort-"@ + "name"@, SortKey::Name);
    lemma_sort_fewer(b, a, "sort-"@ + "path"@, SortKey::Path);
    lemma_sort_fewer(b, a, "sort-"@ + "size"@, SortKey::Size);
    lemma_sort_fewer(b, a, "sort-"@ + "dm"@, SortKey::DateModified);
    lemma_sort_fewer(b, a, "sort-"@ + "date-modified"@, SortKey::DateModified);
}

/// The words of which sorts are named.
pub open spec fn sort_base(base: Seq<char>, key: SortKey) -> bool {
    ||| base == "name"@ && key == SortKey::Name
    ||| base == "path"@ && key == SortKey::Path
    ||| base == "size"@ && key == SortKey::Size
    ||| base == "dm"@ && key == SortKey::DateModified
    ||| base == "date-modified"@ && key == SortKey::DateModified
}

/// `x` names the sort, with `front` before the name: names and paths ascend,
/// and sizes and dates descend, unless `-ascending` or `-descending` says
/// otherwise.
pub open spec fn is_sort(x: Seq<char>, front: Seq<char>, s: SortSpec) -> bool {
    exists|base: Seq<char>| #[trigger]
        sort_base(base, s.key) && {
            ||| fewer_dashes(x, front + base) && ((s.dir == SortDir::Asc) == (s.key == SortKey::Name
                || s.key == SortKey::Path))
            ||| fewer_dashes(x, front + base + "-ascending"@) && s.dir == SortDir::Asc
            ||| fewer_dashes(x, front + base + "-descending"@) && s.dir == SortDir::Desc
        }
}

/// To be the name of a switch is to be it with some dashes left out.
proof fn lemma_names(x: Seq<char>, c: Seq<char>)
    ensures
        argv::names(x, c) == fewer_dashes(x, c),
    decreases c.len(),
{
    if fewer_dashes(x, c) {
        argv::law_dashes_are_optional(c);
        lemma_fewer(x, c, c);
    }
    if argv::names(x, c) && c.len() > 0 {
        let d = c.drop_first();
        if c[0] == '-' {
            if x.len() > 0 && x[0] == '-' {
                lemma_names(x.drop_first(), d);
            } else {
                lemma_names(x, d);
            }
        } else {
            lemma_names(x.drop_first(), d);
        }
    }
}

/// A name gives one of the three forms of a sort, and it alone.
proof fn lemma_one_form(x: Seq<char>, base: Seq<char>, key: SortKey)
    requires
        sort_base(base, key),
    ensures
        argv::names(x, "sort-"@ + base) ==> argv::sort_form(x, "sort-"@ + base, key) == Some(
            SortSpec { key, dir: types::default_dir(key) },
        ),
        argv::names(x, "sort-"@ + base + "-ascending"@) ==> argv::sort_form(
            x,
            "sort-"@ + base,
            key,
        ) == Some(SortSpec { key, dir: SortDir::Asc }),
        argv::names(x, "sort-"@ + base + "-descending"@) ==> argv::sort_form(
            x,
            "sort-"@ + base,
            key,
        ) == Some(SortSpec { key, dir: SortDir::Desc }),
        argv::sort_form(x, "sort-"@ + base, key) matches Some(spec) ==> SwitchAction::SortFixed(
            spec,
        ) == action_of_row(row_of(argv::without_dashes(x))),
{
    lemma_words();
    reveal_strlit("name");
    reveal_strlit("path");
    reveal_strlit("size");
    reveal_strlit("dm");
    reveal_strlit("date");
    reveal_strlit("modified");
    reveal_strlit("date-modified");
    reveal_strlit("ascending");
    reveal_strlit("descending");
    let letters = argv::without_dashes(base);
    assert("date-modified"@ =~= "date"@ + seq!['-'] + "modified"@);
    lemma_two_words("date-modified"@, "date"@, "modified"@);
    assert(("date"@ + "modified"@)[0] == 'd' && ("date"@ + "modified"@)[1] == 'a');
    lemma_sort_letters(x, base, letters);
    let r: int = if key == SortKey::Name {
        20
    } else if key == SortKey::Path {
        30
    } else if key == SortKey::Size {
        40
    } else {
        50
    };
    lemma_sort_form(x, base, letters, key, r);
    let a = "sort"@ + letters;
    assert((a + "ascending"@).len() == a.len() + 9);
    assert((a + "descending"@).len() == a.len() + 10);
}

proof fn lemma_sort_is_named(x: Seq<char>, front: Seq<char>, s: SortSpec)
    requires
        argv::sort_named(x, front) == Some(s),
    ensures
        is_sort(x, front, s),
{
    lemma_form_is_named(x, front, "name"@, SortKey::Name);
    lemma_form_is_named(x, front, "path"@, SortKey::Path);
    lemma_form_is_named(x, front, "size"@, SortKey::Size);
    lemma_form_is_named(x, front, "dm"@, SortKey::DateModified);
    lemma_form_is_named(x, front, "date-modified"@, SortKey::DateModified);
}

proof fn lemma_form_is_named(x: Seq<char>, front: Seq<char>, base: Seq<char>, key: SortKey)
    requires
        sort_base(base, key),
    ensures
        argv::sort_form(x, front + base, key) matches Some(s) ==> is_sort(x, front, s),
{
    lemma_names(x, front + base);
    lemma_names(x, front + base + "-ascending"@);
    lemma_names(x, front + base + "-descending"@);
}

/// Every switch by its names: it is the one whose name, with some dashes left
/// out, was given.
pub(super) proof fn lemma_switch_table(x: Seq<char>)
    ensures
        argv::switch_of(x) == Some(SwitchAction::Limit) <==> fewer_dashes(x, "n"@) || fewer_dashes(
            x,
            "max-results"@,
        ),
        argv::switch_of(x) == Some(SwitchAction::Scope) <==> fewer_dashes(x, "path"@),
        argv::switch_of(x) == Some(SwitchAction::Column(EsColumn::Size)) <==> fewer_dashes(
            x,
            "size"@,
        ),
        argv::switch_of(x) == Some(SwitchAction::Column(EsColumn::DateModified)) <==> fewer_dashes(
            x,
            "dm"@,
        ) || fewer_dashes(x, "date-modified"@),
        argv::switch_of(x) == Some(SwitchAction::SortParam) <==> fewer_dashes(x, "sort"@),
        argv::switch_of(x) == Some(SwitchAction::ExportCsv) <==> fewer_dashes(x, "export-csv"@),
        argv::switch_of(x) == Some(SwitchAction::Utf8Bom) <==> fewer_dashes(x, "utf8-bom"@),
        argv::switch_of(x) == Some(SwitchAction::NoUtf8Bom) <==> fewer_dashes(x, "no-utf8-bom"@),
        argv::switch_of(x) == Some(SwitchAction::NoHeader) <==> fewer_dashes(x, "no-header"@),
        argv::switch_of(x) == Some(SwitchAction::NoDoubleQuote) <==> fewer_dashes(
            x,
            "no-double-quote"@,
        ),
        argv::switch_of(x) == Some(SwitchAction::MatchCase) <==> fewer_dashes(x, "case"@)
            || fewer_dashes(x, "match-case"@),
        forall|s: SortSpec|
            argv::switch_of(x) == Some(SwitchAction::SortFixed(s)) <==> #[trigger] is_sort(
                x,
                "sort-"@,
                s,
            ),
        argv::switch_of(x) is Some ==> x.len() > 0 && x[0] != '-',
{
    lemma_switch_by_letters(x);
    lemma_row_n(x);
    lemma_row_max_results(x);
    lemma_row_path(x);
    lemma_row_size(x);
    lemma_row_dm(x);
    lemma_row_date_modified(x);
    lemma_row_sort(x);
    lemma_row_export_csv(x);
    lemma_row_utf8_bom(x);
    lemma_row_no_utf8_bom(x);
    lemma_row_no_header(x);
    lemma_row_no_double_quote(x);
    lemma_row_case(x);
    lemma_row_match_case(x);
    lemma_names(x, "n"@);
    lemma_names(x, "max-results"@);
    lemma_names(x, "path"@);
    lemma_names(x, "size"@);
    lemma_names(x, "dm"@);
    lemma_names(x, "date-modified"@);
    lemma_names(x, "sort"@);
    lemma_names(x, "export-csv"@);
    lemma_names(x, "utf8-bom"@);
    lemma_names(x, "no-utf8-bom"@);
    lemma_names(x, "no-header"@);
    lemma_names(x, "no-double-quote"@);
    lemma_names(x, "case"@);
    lemma_names(x, "match-case"@);
    assert(argv::switch_of(x) is Some || argv::sort_named(x, "sort-"@) is None) by {
        reveal(argv::switch_of);
    }
    assert forall|s: SortSpec|
        argv::switch_of(x) == Some(SwitchAction::SortFixed(s)) <==> #[trigger] is_sort(
            x,
            "sort-"@,
            s,
        ) by {
        if is_sort(x, "sort-"@, s) {
            lemma_sort_switch(x, s);
        }
        if argv::switch_of(x) == Some(SwitchAction::SortFixed(s)) {
            assert(argv::sort_named(x, "sort-"@) == Some(s)) by {
                reveal(argv::switch_of);
            }
            lemma_sort_is_named(x, "sort-"@, s);
        }
    }
    assert(argv::names(x, "n"@) || argv::names(x, "max-results"@) || argv::names(x, "path"@)
        || argv::names(x, "size"@) || argv::names(x, "dm"@) || argv::names(x, "date-modified"@)
        || argv::names(x, "sort"@) || argv::names(x, "export-csv"@) || argv::names(x, "utf8-bom"@)
        || argv::names(x, "no-utf8-bom"@) || argv::names(x, "no-header"@) || argv::names(
        x,
        "no-double-quote"@,
    ) || argv::names(x, "case"@) || argv::names(x, "match-case"@) ==> argv::switch_of(
        x,
    ) is Some) by {
        reveal(argv::switch_of);
    }
    reveal(argv::switch_of);
}

proof fn lemma_sort_switch(x: Seq<char>, s: SortSpec)
    requires
        is_sort(x, "sort-"@, s),
    ensures
        argv::switch_of(x) == Some(SwitchAction::SortFixed(s)),
        argv::sort_named(x, "sort-"@) == Some(s),
{
    let base = choose|base: Seq<char>| #[trigger]
        sort_base(base, s.key) && {
            ||| fewer_dashes(x, "sort-"@ + base) && ((s.dir == SortDir::Asc) == (s.key
                == SortKey::Name || s.key == SortKey::Path))
            ||| fewer_dashes(x, "sort-"@ + base + "-ascending"@) && s.dir == SortDir::Asc
            ||| fewer_dashes(x, "sort-"@ + base + "-descending"@) && s.dir == SortDir::Desc
        };
    let front = "sort-"@ + base;
    lemma_names(x, front);
    lemma_names(x, front + "-ascending"@);
    lemma_names(x, front + "-descending"@);
    lemma_one_form(x, base, s.key);
    assert(argv::sort_form(x, front, s.key) == Some(s));
    lemma_switch_by_letters(x);
    assert(argv::sort_named(x, "sort-"@) is Some);
    reveal(argv::switch_of);
}

proof fn lemma_sort_before(v: Seq<char>, c: Seq<char>)
    ensures
        argv::names("sort-"@ + v, "sort-"@ + c) == argv::names(v, c),
{
    reveal_strlit("sort-");
    reveal_with_fuel(argv::names, 6);
    let x = "sort-"@ + v;
    let y = "sort-"@ + c;
    assert(x.drop_first().drop_first().drop_first().drop_first().drop_first() =~= v);
    assert(y.drop_first().drop_first().drop_first().drop_first().drop_first() =~= c);
}

/// What `-sort` accepts is what the sort switches have behind `sort-`.
pub(super) proof fn lemma_sort_values(v: Seq<char>, s: SortSpec)
    ensures
        argv::sort_param(v) == Some(s) <==> is_sort(v, Seq::empty(), s),
{
    let none = Seq::<char>::empty();
    let x = "sort-"@ + v;
    reveal_strlit("");
    assert(""@ =~= none);
    if argv::sort_param(v) == Some(s) {
        lemma_sort_is_named(v, none, s);
    }
    if is_sort(v, none, s) {
        let base = choose|base: Seq<char>| #[trigger]
            sort_base(base, s.key) && {
                ||| fewer_dashes(v, none + base) && ((s.dir == SortDir::Asc) == (s.key
                    == SortKey::Name || s.key == SortKey::Path))
                ||| fewer_dashes(v, none + base + "-ascending"@) && s.dir == SortDir::Asc
                ||| fewer_dashes(v, none + base + "-descending"@) && s.dir == SortDir::Desc
            };
        lemma_forms_before(v, base, s.key);
        assert(is_sort(x, "sort-"@, s));
        lemma_sort_switch(x, s);
        lemma_forms_before(v, "name"@, SortKey::Name);
        lemma_forms_before(v, "path"@, SortKey::Path);
        lemma_forms_before(v, "size"@, SortKey::Size);
        lemma_forms_before(v, "dm"@, SortKey::DateModified);
        lemma_forms_before(v, "date-modified"@, SortKey::DateModified);
    }
}

proof fn lemma_forms_before(v: Seq<char>, base: Seq<char>, key: SortKey)
    ensures
        argv::sort_form("sort-"@ + v, "sort-"@ + base, key) == argv::sort_form(v, ""@ + base, key),
        fewer_dashes(v, Seq::<char>::empty() + base) == fewer_dashes("sort-"@ + v, "sort-"@ + base),
        fewer_dashes(v, Seq::<char>::empty() + base + "-ascending"@) == fewer_dashes(
            "sort-"@ + v,
            "sort-"@ + base + "-ascending"@,
        ),
        fewer_dashes(v, Seq::<char>::empty() + base + "-descending"@) == fewer_dashes(
            "sort-"@ + v,
            "sort-"@ + base + "-descending"@,
        ),
{
    reveal_strlit("");
    let x = "sort-"@ + v;
    let up = base + "-ascending"@;
    let down = base + "-descending"@;
    assert(""@ + base =~= base);
    assert(Seq::<char>::empty() + base =~= base);
    assert("sort-"@ + up =~= "sort-"@ + base + "-ascending"@);
    assert("sort-"@ + down =~= "sort-"@ + base + "-descending"@);
    lemma_sort_before(v, base);
    lemma_sort_before(v, up);
    lemma_sort_before(v, down);
    lemma_names(v, base);
    lemma_names(v, up);
    lemma_names(v, down);
    lemma_names(x, "sort-"@ + base);
    lemma_names(x, "sort-"@ + up);
    lemma_names(x, "sort-"@ + down);
}

/// The token is the same one, or the same switch with fewer inner dashes or
/// with a slash for the first dash or a dash for the slash.
pub open spec fn same_token(t: Seq<char>, u: Seq<char>) -> bool {
    ||| u == t
    ||| {
        &&& argv::token_kind(t) is Switch
        &&& u.len() > 0
        &&& u[0] == '-' || u[0] == '/'
        &&& fewer_dashes(u.drop_first(), t.drop_first())
    }
}

/// A switch is the same one however it is spelled.
pub proof fn law_a_switch_may_be_spelled_otherwise(t: Seq<char>, u: Seq<char>)
    requires
        same_token(t, u),
    ensures
        argv::token_kind(u) == argv::token_kind(t),
{
    if u != t {
        reveal(argv::token_kind);
        reveal_strlit("--");
        let a = t.subrange(1, t.len() as int);
        let b = u.subrange(1, u.len() as int);
        assert(t.drop_first() =~= a);
        assert(u.drop_first() =~= b);
        law_any_dashes_may_be_left_out(b, a);
        lemma_switch_by_letters(b);
        assert(u[1] == b[0]);
        assert(!argv::all_dashes(u));
        assert(!text::starts(u, "--"@)) by {
            if text::starts(u, "--"@) {
                assert("--"@[1] == '-');
            }
        }
    }
}

/// How many arguments the first one takes, its parameter included.
pub open spec fn taken(args: Seq<Seq<char>>) -> int {
    match argv::token_kind(args[0]) {
        TokenKind::Switch(action) => if argv::takes_param(action) && args.len() > 1 {
            2
        } else {
            1
        },
        _ => 1,
    }
}

/// The arguments are the same, but for the spelling of switches.
pub open spec fn respelled(a: Seq<Seq<char>>, b: Seq<Seq<char>>) -> bool
    decreases a.len(),
{
    &&& a.len() == b.len()
    &&& a.len() > 0 ==> {
        let n = taken(a);
        &&& same_token(a[0], b[0])
        &&& n == 2 ==> b[1] == a[1]
        &&& respelled(a.subrange(n, a.len() as int), b.subrange(n, b.len() as int))
    }
}

/// Arguments ask for the same whichever inner dashes of their switches are left
/// out, and whether a switch starts with a dash or a slash. Native switches,
/// words and parameters are written as they are.
pub proof fn law_spelling_does_not_matter(
    plan: PlanModel,
    a: Seq<Seq<char>>,
    b: Seq<Seq<char>>,
)
    requires
        respelled(a, b),
        argv::with_args(plan, a) is Ok,
    ensures
        argv::with_args(plan, b) == argv::with_args(plan, a),
    decreases a.len(),
{
    if a.len() > 0 {
        law_a_switch_may_be_spelled_otherwise(a[0], b[0]);
        let (next, n) = argv::with_arg(plan, a)->Ok_0;
        assert(n == taken(a));
        assert(argv::token_kind(a[0]) is Word ==> b[0] == a[0]);
        assert(argv::with_arg(plan, b) == argv::with_arg(plan, a));
        law_spelling_does_not_matter(
            next,
            a.subrange(n, a.len() as int),
            b.subrange(n, b.len() as int),
        );
    }
}

} // verus!
