//! What the arguments set.

use crate::escompat::argv;
use crate::escompat::argv::{EsPlan, FatalModel, PlanModel, SwitchAction, TokenKind};
use crate::escompat::spelling;
use crate::escompat::spelling::fewer_dashes;
use crate::text;
use crate::types::{EsColumn, SortDir, SortKey, SortSpec};
use vstd::prelude::*;

verus! {

/// The argument is a switch of that name, with any of the dashes inside it.
pub open spec fn spelled(t: Seq<char>, name: Seq<char>) -> bool {
    t.len() > 0 && (t[0] == '-' || t[0] == '/') && fewer_dashes(t.drop_first(), name)
}

pub open spec fn is_limit(t: Seq<char>) -> bool {
    spelled(t, "n"@) || spelled(t, "max-results"@)
}

pub open spec fn is_scope(t: Seq<char>) -> bool {
    spelled(t, "path"@)
}

pub open spec fn is_export(t: Seq<char>) -> bool {
    spelled(t, "export-csv"@)
}

pub open spec fn is_sort_by(t: Seq<char>) -> bool {
    spelled(t, "sort"@)
}

/// The argument takes the next one as its parameter.
pub open spec fn has_value(t: Seq<char>) -> bool {
    is_limit(t) || is_scope(t) || is_export(t) || is_sort_by(t)
}

pub open spec fn is_size(t: Seq<char>) -> bool {
    spelled(t, "size"@)
}

pub open spec fn is_date(t: Seq<char>) -> bool {
    spelled(t, "dm"@) || spelled(t, "date-modified"@)
}

pub open spec fn is_bom(t: Seq<char>) -> bool {
    spelled(t, "utf8-bom"@)
}

pub open spec fn is_no_bom(t: Seq<char>) -> bool {
    spelled(t, "no-utf8-bom"@)
}

pub open spec fn is_no_header(t: Seq<char>) -> bool {
    spelled(t, "no-header"@)
}

pub open spec fn is_no_quotes(t: Seq<char>) -> bool {
    spelled(t, "no-double-quote"@)
}

pub open spec fn is_case(t: Seq<char>) -> bool {
    spelled(t, "case"@) || spelled(t, "match-case"@)
}

/// The argument is a switch that names the sort.
pub open spec fn names_sort(t: Seq<char>, s: SortSpec) -> bool {
    t.len() > 0 && (t[0] == '-' || t[0] == '/') && spelling::is_sort(t.drop_first(), "sort-"@, s)
}

pub open spec fn is_sort_switch(t: Seq<char>) -> bool {
    is_sort_by(t) || exists|s: SortSpec| names_sort(t, s)
}

/// The parameter of `-sort` names the sort.
pub open spec fn names_value(v: Seq<char>, s: SortSpec) -> bool {
    spelling::is_sort(v, Seq::empty(), s)
}

pub open spec fn is_sort_value(v: Seq<char>) -> bool {
    exists|s: SortSpec| names_value(v, s)
}

/// One of the switches with a single dash or slash.
pub open spec fn is_switch(t: Seq<char>) -> bool {
    has_value(t) || is_size(t) || is_date(t) || is_bom(t) || is_no_bom(t) || is_no_header(t)
        || is_no_quotes(t) || is_case(t) || is_sort_switch(t)
}

/// One of the switches with two dashes.
pub open spec fn is_own(t: Seq<char>) -> bool {
    t == "--json"@ || t == "--status"@ || t == "--insecure-no-server-check"@
}

/// Dashes alone.
pub open spec fn is_dashes(t: Seq<char>) -> bool {
    forall|k: int| 0 <= k < t.len() ==> #[trigger] t[k] == '-'
}

/// A word of the query: it begins with no dash, or is dashes alone, and it is no
/// switch.
pub open spec fn is_word(t: Seq<char>) -> bool {
    (t.len() == 0 || t[0] != '-' || is_dashes(t)) && !is_switch(t)
}

/// The argument stands for itself: it is not the parameter of the one before.
pub open spec fn is_token(args: Seq<Seq<char>>, i: int) -> bool
    decreases i,
{
    i <= 0 || !(is_token(args, i - 1) && has_value(args[i - 1]))
}

/// The last of the first `n` arguments that stands for itself and is such a
/// one; -1 if there is none.
pub open spec fn last(args: Seq<Seq<char>>, n: int, p: spec_fn(Seq<char>) -> bool) -> int
    decreases n,
{
    if n <= 0 {
        -1
    } else if is_token(args, n - 1) && p(args[n - 1]) {
        n - 1
    } else {
        last(args, n - 1, p)
    }
}

/// Those of the first `n` arguments that are words, in order.
pub open spec fn words(args: Seq<Seq<char>>, n: int) -> Seq<Seq<char>>
    decreases n,
{
    if n <= 0 {
        Seq::empty()
    } else if is_token(args, n - 1) && is_word(args[n - 1]) {
        words(args, n - 1).push(args[n - 1])
    } else {
        words(args, n - 1)
    }
}

/// The parameter of the last such switch.
pub open spec fn last_value(args: Seq<Seq<char>>, n: int, p: spec_fn(Seq<char>) -> bool) -> Option<
    Seq<char>,
> {
    if last(args, n, p) < 0 {
        None
    } else {
        Some(args[last(args, n, p) + 1])
    }
}

/// The sort is the one that was asked for last; by name if none was.
pub open spec fn sorted_by(args: Seq<Seq<char>>, n: int, s: SortSpec) -> bool {
    let k = last(args, n, |t: Seq<char>| is_sort_switch(t));
    if k < 0 {
        s == SortSpec { key: SortKey::Name, dir: SortDir::Asc }
    } else if is_sort_by(args[k]) {
        names_value(args[k + 1], s)
    } else {
        names_sort(args[k], s)
    }
}

/// The columns are those that were asked for, the one asked for last behind.
pub open spec fn showing(args: Seq<Seq<char>>, n: int, columns: Seq<EsColumn>) -> bool {
    let size = last(args, n, |t: Seq<char>| is_size(t));
    let date = last(args, n, |t: Seq<char>| is_date(t));
    columns == (if size < 0 && date < 0 {
        Seq::empty()
    } else if date < 0 {
        seq![EsColumn::Size]
    } else if size < 0 {
        seq![EsColumn::DateModified]
    } else if size < date {
        seq![EsColumn::Size, EsColumn::DateModified]
    } else {
        seq![EsColumn::DateModified, EsColumn::Size]
    })
}

/// Each setting is what its own switches among the first `n` arguments say, the
/// last of them where they differ, and its default without any.
pub open spec fn set_by(m: PlanModel, args: Seq<Seq<char>>, n: int) -> bool {
    &&& m.words == words(args, n)
    &&& m.limit == (match last_value(args, n, |t: Seq<char>| is_limit(t)) {
        None => None,
        Some(v) => Some(text::number(v, u32::MAX as nat)->0 as u32),
    })
    &&& m.scope == last_value(args, n, |t: Seq<char>| is_scope(t))
    &&& m.export_csv == last_value(args, n, |t: Seq<char>| is_export(t))
    &&& sorted_by(args, n, m.sort)
    &&& showing(args, n, m.columns)
    &&& m.bom == (last(args, n, |t: Seq<char>| is_no_bom(t)) <= last(
        args,
        n,
        |t: Seq<char>| is_bom(t),
    ))
    &&& m.header == (last(args, n, |t: Seq<char>| is_no_header(t)) < 0)
    &&& m.double_quote == (last(args, n, |t: Seq<char>| is_no_quotes(t)) < 0)
    &&& m.match_case == (last(args, n, |t: Seq<char>| is_case(t)) >= 0)
    &&& m.json == (last(args, n, |t: Seq<char>| t == "--json"@) >= 0)
    &&& m.status == (last(args, n, |t: Seq<char>| t == "--status"@) >= 0)
    &&& m.insecure_no_server_check == (last(
        args,
        n,
        |t: Seq<char>| t == "--insecure-no-server-check"@,
    ) >= 0)
}

/// What a token is, by its spelling.
proof fn lemma_kind(t: Seq<char>)
    ensures
        argv::token_kind(t) == TokenKind::Switch(SwitchAction::Limit) <==> is_limit(t),
        argv::token_kind(t) == TokenKind::Switch(SwitchAction::Scope) <==> is_scope(t),
        argv::token_kind(t) == TokenKind::Switch(SwitchAction::ExportCsv) <==> is_export(t),
        argv::token_kind(t) == TokenKind::Switch(SwitchAction::SortParam) <==> is_sort_by(t),
        argv::token_kind(t) == TokenKind::Switch(SwitchAction::Column(EsColumn::Size)) <==> is_size(
            t,
        ),
        argv::token_kind(t) == TokenKind::Switch(SwitchAction::Column(EsColumn::DateModified))
            <==> is_date(t),
        argv::token_kind(t) == TokenKind::Switch(SwitchAction::Utf8Bom) <==> is_bom(t),
        argv::token_kind(t) == TokenKind::Switch(SwitchAction::NoUtf8Bom) <==> is_no_bom(t),
        argv::token_kind(t) == TokenKind::Switch(SwitchAction::NoHeader) <==> is_no_header(t),
        argv::token_kind(t) == TokenKind::Switch(SwitchAction::NoDoubleQuote) <==> is_no_quotes(t),
        argv::token_kind(t) == TokenKind::Switch(SwitchAction::MatchCase) <==> is_case(t),
        forall|s: SortSpec|
            argv::token_kind(t) == TokenKind::Switch(SwitchAction::SortFixed(s))
                <==> #[trigger] names_sort(t, s),
        argv::token_kind(t) == TokenKind::Json <==> t == "--json"@,
        argv::token_kind(t) == TokenKind::Status <==> t == "--status"@,
        argv::token_kind(t) == TokenKind::Insecure <==> t == "--insecure-no-server-check"@,
        argv::token_kind(t) == TokenKind::Word <==> is_word(t),
{
    reveal(argv::token_kind);
    reveal_strlit("--");
    let x = t.drop_first();
    if t.len() > 0 {
        assert(x =~= t.subrange(1, t.len() as int));
        if x.len() > 0 {
            assert(x[0] == t[1]);
        }
        spelling::lemma_switch_table(x);
    }
    let some = t.len() > 0 && (t[0] == '-' || t[0] == '/') && argv::switch_of(x) is Some;
    if some {
        assert(t[1] != '-');
        assert(!argv::all_dashes(t));
        assert(!text::starts(t, "--"@)) by {
            if text::starts(t, "--"@) {
                assert(t.subrange(0, 2)[1] == t[1]);
                assert("--"@[1] == '-');
            }
        }
    }
    assert(some ==> argv::token_kind(t) == TokenKind::Switch(argv::switch_of(x)->0));
    assert(argv::token_kind(t) is Switch ==> some);
    lemma_own(t, "json"@, "--json"@);
    lemma_own(t, "status"@, "--status"@);
    lemma_own(t, "insecure-no-server-check"@, "--insecure-no-server-check"@);
    lemma_own_names(t);
    if t.len() > 0 && t[0] == '-' {
        if is_dashes(t) {
            assert(argv::all_dashes(t)) by {
                assert forall|k: int| 0 <= k < t.len() implies t[k] == '-' by {
                    assert(t[k] == '-');
                }
            }
        }
    }
    assert(argv::all_dashes(t) ==> is_dashes(t));
    assert(is_switch(t) <==> some) by {
        if some {
            let a = argv::switch_of(x)->0;
            if a is SortFixed {
                assert(spelling::is_sort(x, "sort-"@, a->SortFixed_0));
                assert(names_sort(t, a->SortFixed_0));
            }
            if a is Column {
                assert(a->Column_0 == EsColumn::Size || a->Column_0 == EsColumn::DateModified);
            }
        }
        if exists|s: SortSpec| names_sort(t, s) {
            let s = choose|s: SortSpec| names_sort(t, s);
            assert(spelling::is_sort(x, "sort-"@, s));
        }
    }
    assert(text::starts(t, "--"@) ==> t[0] == '-') by {
        if text::starts(t, "--"@) {
            assert(t.subrange(0, 2)[0] == t[0]);
            assert("--"@[0] == '-');
        }
    }
}

proof fn lemma_own(t: Seq<char>, name: Seq<char>, whole: Seq<char>)
    requires
        name == "json"@ && whole == "--json"@ || name == "status"@
            && whole == "--status"@ || name == "insecure-no-server-check"@ && whole
            == "--insecure-no-server-check"@,
    ensures
        (text::starts(t, "--"@) && t.subrange("--"@.len() as int, t.len() as int) == name) == (t
            == whole),
        name.len() > 0,
{
    reveal_strlit("--");
    reveal_strlit("json");
    reveal_strlit("--json");
    reveal_strlit("status");
    reveal_strlit("--status");
    reveal_strlit("insecure-no-server-check");
    reveal_strlit("--insecure-no-server-check");
    assert("--json"@ =~= "--"@ + "json"@);
    assert("--status"@ =~= "--"@ + "status"@);
    assert("--insecure-no-server-check"@ =~= "--"@ + "insecure-no-server-check"@);
    if text::starts(t, "--"@) {
        assert(t =~= "--"@ + t.subrange(2, t.len() as int));
    }
    if t == whole {
        assert(t.subrange(0, 2) =~= "--"@);
        assert(t.subrange(2, t.len() as int) =~= name);
    }
}

proof fn lemma_own_names(t: Seq<char>)
    ensures
        is_own(t) ==> !argv::all_dashes(t),
        "json"@ != "status"@ && "json"@ != "insecure-no-server-check"@ && "status"@
            != "insecure-no-server-check"@,
{
    reveal_strlit("json");
    reveal_strlit("--json");
    reveal_strlit("status");
    reveal_strlit("--status");
    reveal_strlit("insecure-no-server-check");
    reveal_strlit("--insecure-no-server-check");
    assert("json"@.len() == 4 && "status"@.len() == 6 && "insecure-no-server-check"@.len() == 24);
    if is_own(t) {
        assert(t[2] != '-');
    }
}

/// The columns after one more was asked for.
proof fn lemma_shown(cols: Seq<EsColumn>, c: EsColumn)
    requires
        cols.len() == 0 || cols == seq![EsColumn::Size] || cols == seq![EsColumn::DateModified]
            || cols == seq![EsColumn::Size, EsColumn::DateModified] || cols == seq![
            EsColumn::DateModified,
            EsColumn::Size,
        ],
    ensures
        argv::without(cols, c) == (if cols.contains(other(c)) {
            seq![other(c)]
        } else {
            Seq::empty()
        }),
{
    reveal_with_fuel(argv::without, 3);
    let s = seq![EsColumn::Size];
    let d = seq![EsColumn::DateModified];
    let sd = seq![EsColumn::Size, EsColumn::DateModified];
    let ds = seq![EsColumn::DateModified, EsColumn::Size];
    assert(sd.drop_last() =~= s);
    assert(ds.drop_last() =~= d);
    assert(s.drop_last() =~= Seq::<EsColumn>::empty());
    assert(d.drop_last() =~= Seq::<EsColumn>::empty());
    assert(s[0] == EsColumn::Size && d[0] == EsColumn::DateModified);
    assert(sd[0] == EsColumn::Size && sd[1] == EsColumn::DateModified);
    assert(ds[0] == EsColumn::DateModified && ds[1] == EsColumn::Size);
    assert(Seq::<EsColumn>::empty().push(EsColumn::Size) =~= s);
    assert(Seq::<EsColumn>::empty().push(EsColumn::DateModified) =~= d);
    if cols.len() == 0 {
        assert(cols =~= Seq::<EsColumn>::empty());
    }
    assert(cols.len() >= 1 ==> cols.contains(cols[0]));
    assert(cols.len() >= 2 ==> cols.contains(cols[1]));
}

spec fn other(c: EsColumn) -> EsColumn {
    match c {
        EsColumn::Size => EsColumn::DateModified,
        EsColumn::DateModified => EsColumn::Size,
    }
}

/// The last such argument, one argument further.
proof fn lemma_last_step(args: Seq<Seq<char>>, n: int, p: spec_fn(Seq<char>) -> bool)
    requires
        0 <= n < args.len(),
    ensures
        last(args, n + 1, p) == (if is_token(args, n) && p(args[n]) {
            n
        } else {
            last(args, n, p)
        }),
        last(args, n, p) < n,
    decreases n,
{
    lemma_last_below(args, n, p);
}

proof fn lemma_last_below(args: Seq<Seq<char>>, n: int, p: spec_fn(Seq<char>) -> bool)
    requires
        0 <= n,
    ensures
        -1 <= last(args, n, p) < n || n == 0 && last(args, n, p) == -1,
    decreases n,
{
    if n > 0 {
        lemma_last_below(args, n - 1, p);
    }
}

proof fn lemma_steps(args: Seq<Seq<char>>, n: int)
    requires
        0 <= n < args.len(),
    ensures
        forall|p: spec_fn(Seq<char>) -> bool| #[trigger]
            last(args, n + 1, p) == (if is_token(args, n) && p(args[n]) {
                n
            } else {
                last(args, n, p)
            }),
        forall|p: spec_fn(Seq<char>) -> bool| #[trigger] last(args, n, p) < n || n == 0,
        forall|p: spec_fn(Seq<char>) -> bool| #[trigger] last(args, n, p) >= -1,
{
    assert forall|p: spec_fn(Seq<char>) -> bool| #[trigger]
        last(args, n + 1, p) == (if is_token(args, n) && p(args[n]) {
            n
        } else {
            last(args, n, p)
        }) by {
        lemma_last_step(args, n, p);
    }
    assert forall|p: spec_fn(Seq<char>) -> bool| #[trigger] last(args, n, p) < n || n == 0 by {
        lemma_last_below(args, n, p);
    }
    assert forall|p: spec_fn(Seq<char>) -> bool| #[trigger] last(args, n, p) >= -1 by {
        lemma_last_below(args, n, p);
    }
}

/// An argument that is a parameter changes nothing.
proof fn lemma_skip(m: PlanModel, args: Seq<Seq<char>>, n: int)
    requires
        0 <= n < args.len(),
        !is_token(args, n),
        set_by(m, args, n),
    ensures
        set_by(m, args, n + 1),
{
    lemma_steps(args, n);
}

/// One argument that stands for itself does what its spelling says.
#[verifier::spinoff_prover]
#[verifier::rlimit(60)]
proof fn lemma_step(m: PlanModel, args: Seq<Seq<char>>, i: int)
    requires
        0 <= i < args.len(),
        is_token(args, i),
        set_by(m, args, i),
    ensures
        ({
            let rest = args.subrange(i, args.len() as int);
            match argv::with_arg(m, rest) {
                Ok((next, n)) => n == (if has_value(args[i]) {
                    2int
                } else {
                    1
                }) && i + n <= args.len() && set_by(next, args, i + 1) && !faulty(args, i),
                Err(e) => faulty(args, i) && e == fault(args, i),
            }
        }),
{
    let rest = args.subrange(i, args.len() as int);
    let t = args[i];
    assert(rest[0] == t);
    if i + 1 < args.len() {
        assert(rest[1] == args[i + 1]);
    }
    lemma_kind(t);
    lemma_steps(args, i);
    lemma_apart(t);
    if let Ok((next, n)) = argv::with_arg(m, rest) {
        match argv::token_kind(t) {
            TokenKind::Switch(action) => match action {
                SwitchAction::Column(c) => {
                    lemma_shown(m.columns, c);
                    lemma_column(m.columns, c, args, i);
                },
                SwitchAction::SortFixed(s) => {
                    assert(names_sort(t, s));
                },
                SwitchAction::SortParam => {
                    spelling::lemma_sort_values(args[i + 1], next.sort);
                },
                _ => {},
            },
            _ => {},
        }
    }
    if is_sort_by(t) && i + 1 < args.len() {
        let v = args[i + 1];
        if argv::sort_param(v) is Some {
            spelling::lemma_sort_values(v, argv::sort_param(v)->0);
        }
        if is_sort_value(v) {
            let s = choose|s: SortSpec| names_value(v, s);
            spelling::lemma_sort_values(v, s);
        } else if argv::sort_param(v) is Some {
            assert(names_value(v, argv::sort_param(v)->0));
        }
    }
}

/// A column that is asked for comes last.
proof fn lemma_column(cols: Seq<EsColumn>, c: EsColumn, args: Seq<Seq<char>>, i: int)
    requires
        0 <= i < args.len(),
        is_token(args, i),
        showing(args, i, cols),
        c == EsColumn::Size <==> is_size(args[i]),
        c == EsColumn::DateModified <==> is_date(args[i]),
    ensures
        showing(args, i + 1, argv::without(cols, c).push(c)),
{
    lemma_steps(args, i);
    lemma_shown(cols, c);
    let s = seq![EsColumn::Size];
    let d = seq![EsColumn::DateModified];
    let sd = seq![EsColumn::Size, EsColumn::DateModified];
    let ds = seq![EsColumn::DateModified, EsColumn::Size];
    assert(s[0] == EsColumn::Size && d[0] == EsColumn::DateModified);
    assert(sd[0] == EsColumn::Size && sd[1] == EsColumn::DateModified);
    assert(ds[0] == EsColumn::DateModified && ds[1] == EsColumn::Size);
    assert(cols.len() >= 1 ==> cols.contains(cols[0]));
    assert(cols.len() >= 2 ==> cols.contains(cols[1]));
    let e = Seq::<EsColumn>::empty();
    assert(e.push(EsColumn::Size) =~= s);
    assert(e.push(EsColumn::DateModified) =~= d);
    assert(s.push(EsColumn::DateModified) =~= sd);
    assert(d.push(EsColumn::Size) =~= ds);
}

/// An argument is one thing only.
proof fn lemma_apart(t: Seq<char>)
    ensures
        is_limit(t) ==> !is_scope(t) && !is_export(t) && !is_sort_by(t) && !is_size(t) && !is_date(t)
            && !is_bom(t) && !is_no_bom(t) && !is_no_header(t) && !is_no_quotes(t) && !is_case(t),
        has_value(t) || is_size(t) || is_date(t) || is_bom(t) || is_no_bom(t) || is_no_header(t)
            || is_no_quotes(t) || is_case(t) || is_sort_switch(t) ==> argv::token_kind(
            t,
        ) is Switch,
        argv::token_kind(t) matches TokenKind::Switch(a) ==> (argv::takes_param(a) == has_value(t)),
        is_sort_switch(t) <==> (argv::token_kind(t) matches TokenKind::Switch(a) && (a
            == SwitchAction::SortParam || a is SortFixed)),
{
    lemma_kind(t);
    if exists|s: SortSpec| names_sort(t, s) {
        let s = choose|s: SortSpec| names_sort(t, s);
        assert(argv::token_kind(t) == TokenKind::Switch(SwitchAction::SortFixed(s)));
    }
    if let TokenKind::Switch(a) = argv::token_kind(t) {
        if a is SortFixed {
            assert(names_sort(t, a->SortFixed_0));
        }
    }
}

/// The argument stands for itself and cannot be taken: it begins with a dash
/// and is unknown, it lacks its parameter, or the parameter is no number or no
/// sort.
pub open spec fn faulty(args: Seq<Seq<char>>, i: int) -> bool {
    let t = args[i];
    is_token(args, i) && {
        ||| !is_word(t) && !is_switch(t) && !is_own(t)
        ||| has_value(t) && i + 1 >= args.len()
        ||| is_limit(t) && text::number(args[i + 1], u32::MAX as nat) is None
        ||| is_sort_by(t) && !is_sort_value(args[i + 1])
    }
}

/// The exit code and the message of an argument that cannot be taken.
pub open spec fn fault(args: Seq<Seq<char>>, i: int) -> FatalModel {
    let t = args[i];
    if !has_value(t) {
        FatalModel { exit_code: 6, message: "unknown switch: "@ + t }
    } else if i + 1 >= args.len() {
        FatalModel { exit_code: 4, message: "expected an additional parameter after "@ + t }
    } else {
        FatalModel {
            exit_code: 4,
            message: "expected "@ + (if is_limit(t) {
                "a number"@
            } else {
                "a sort key"@
            }) + " after "@ + t + ", got: "@ + args[i + 1],
        }
    }
}

/// Whatever comes first, the rest does what its spelling says.
proof fn lemma_set(m: PlanModel, args: Seq<Seq<char>>, i: int)
    requires
        0 <= i <= args.len(),
        is_token(args, i),
        set_by(m, args, i),
        forall|j: int| 0 <= j < i ==> !#[trigger] faulty(args, j),
    ensures
        match argv::with_args(m, args.subrange(i, args.len() as int)) {
            Ok(all) => set_by(all, args, args.len() as int) && forall|j: int|
                0 <= j < args.len() ==> !#[trigger] faulty(args, j),
            Err(e) => exists|j: int| #[trigger]
                first_fault(args, j) && e == fault(args, j),
        },
    decreases args.len() - i,
{
    let n = args.len() as int;
    let rest = args.subrange(i, n);
    if i < n {
        lemma_step(m, args, i);
        match argv::with_arg(m, rest) {
            Ok((next, k)) => {
                assert(rest.subrange(k, rest.len() as int) =~= args.subrange(i + k, n));
                if k == 2 {
                    assert(!is_token(args, i + 1));
                    lemma_skip(next, args, i + 1);
                    assert(is_token(args, i + 2));
                } else {
                    assert(is_token(args, i + 1));
                }
                assert forall|j: int| 0 <= j < i + k implies !#[trigger] faulty(args, j) by {}
                lemma_set(next, args, i + k);
            },
            Err(e) => {
                assert(first_fault(args, i));
            },
        }
    }
}

/// The argument is the first that cannot be taken.
pub open spec fn first_fault(args: Seq<Seq<char>>, i: int) -> bool {
    0 <= i < args.len() && faulty(args, i) && forall|j: int|
        0 <= j < i ==> !#[trigger] faulty(args, j)
}

/// Each setting is what its own switches say, whatever stands before or after
/// them: the last one counts, and without one it has its default. The words in
/// between are the query. Arguments are refused exactly if one of them cannot
/// be taken, and the first such one decides how.
pub proof fn law_each_setting_has_its_own_switches(args: Seq<Seq<char>>)
    ensures
        match argv::with_args(argv::default_plan(), args) {
            Ok(m) => set_by(m, args, args.len() as int) && forall|i: int|
                0 <= i < args.len() ==> !#[trigger] faulty(args, i),
            Err(e) => exists|i: int| #[trigger] first_fault(args, i) && e == fault(args, i),
        },
{
    let m = argv::default_plan();
    assert(words(args, 0) =~= Seq::<Seq<char>>::empty());
    assert(set_by(m, args, 0)) by {
        assert(last(args, 0, |t: Seq<char>| is_limit(t)) == -1);
        assert(last(args, 0, |t: Seq<char>| is_no_bom(t)) == -1);
        assert(last(args, 0, |t: Seq<char>| is_bom(t)) == -1);
        assert(m.columns =~= Seq::<EsColumn>::empty());
    }
    assert(args.subrange(0, args.len() as int) =~= args);
    lemma_set(m, args, 0);
}

/// The plan is what the arguments ask for.
pub open spec fn planned(plan: EsPlan, args: Seq<Seq<char>>) -> bool {
    let n = args.len() as int;
    &&& plan.query@ == spaced_out(words(args, n))
    &&& plan.limit == (match last_value(args, n, |t: Seq<char>| is_limit(t)) {
        None => None,
        Some(v) => Some(text::number(v, u32::MAX as nat)->0 as u32),
    })
    &&& argv::text_of(plan.scope) == last_value(args, n, |t: Seq<char>| is_scope(t))
    &&& argv::text_of(plan.export_csv) == last_value(args, n, |t: Seq<char>| is_export(t))
    &&& sorted_by(args, n, plan.sort)
    &&& showing(args, n, plan.columns@)
    &&& plan.bom == (last(args, n, |t: Seq<char>| is_no_bom(t)) <= last(
        args,
        n,
        |t: Seq<char>| is_bom(t),
    ))
    &&& plan.header == (last(args, n, |t: Seq<char>| is_no_header(t)) < 0)
    &&& plan.double_quote == (last(args, n, |t: Seq<char>| is_no_quotes(t)) < 0)
    &&& plan.match_case == (last(args, n, |t: Seq<char>| is_case(t)) >= 0)
    &&& plan.json == (last(args, n, |t: Seq<char>| t == "--json"@) >= 0)
    &&& plan.status == (last(args, n, |t: Seq<char>| t == "--status"@) >= 0)
    &&& plan.insecure_no_server_check == (last(
        args,
        n,
        |t: Seq<char>| t == "--insecure-no-server-check"@,
    ) >= 0)
}

/// The words, each but the first behind a space.
pub open spec fn spaced_out(all: Seq<Seq<char>>) -> Seq<char> {
    if all.len() == 0 {
        Seq::empty()
    } else {
        all[0] + behind_spaces(all.drop_first())
    }
}

pub open spec fn behind_spaces(all: Seq<Seq<char>>) -> Seq<char>
    decreases all.len(),
{
    if all.len() == 0 {
        Seq::empty()
    } else {
        seq![' '] + all[0] + behind_spaces(all.drop_first())
    }
}

proof fn lemma_behind(all: Seq<Seq<char>>, w: Seq<char>)
    ensures
        behind_spaces(all.push(w)) == behind_spaces(all) + seq![' '] + w,
    decreases all.len(),
{
    let more = all.push(w);
    if all.len() == 0 {
        reveal_with_fuel(behind_spaces, 2);
        assert(more.drop_first() =~= Seq::<Seq<char>>::empty());
        assert(behind_spaces(more) =~= behind_spaces(all) + seq![' '] + w);
    } else {
        assert(more.drop_first() =~= all.drop_first().push(w));
        lemma_behind(all.drop_first(), w);
        assert(behind_spaces(more) =~= behind_spaces(all) + seq![' '] + w);
    }
}

proof fn lemma_spaced(all: Seq<Seq<char>>)
    ensures
        argv::spaced(all) == spaced_out(all),
    decreases all.len(),
{
    if all.len() == 0 {
        assert(argv::spaced(all) =~= spaced_out(all));
    } else if all.len() == 1 {
        assert(behind_spaces(all.drop_first()) =~= Seq::<char>::empty());
        assert(all[0] + Seq::<char>::empty() =~= all[0]);
    } else {
        let d = all.drop_last();
        lemma_spaced(d);
        lemma_behind(d.drop_first(), all.last());
        assert(d.drop_first().push(all.last()) =~= all.drop_first());
        assert(argv::spaced(all) =~= spaced_out(all));
    }
}

/// The plan of what the arguments ask for.
pub(super) proof fn lemma_planned(plan: EsPlan, m: PlanModel, args: Seq<Seq<char>>)
    requires
        argv::with_args(argv::default_plan(), args) == Ok::<PlanModel, FatalModel>(m),
        argv::plan_model(plan, m.words) == m,
        plan.query@ == argv::spaced(m.words),
    ensures
        planned(plan, args),
{
    law_each_setting_has_its_own_switches(args);
    lemma_spaced(m.words);
}

} // verus!
