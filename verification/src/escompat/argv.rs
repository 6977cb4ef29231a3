//! The argument rules of es.exe.
//!
//! A switch begins with `-` or `/`, and each dash inside its name may be left
//! out. An unknown name is an error after `-` and plain text after `/`. A
//! token made of dashes alone is plain text. The switches of this program
//! itself begin with `--`. Everything that is no switch joins the query,
//! separated by single spaces.

use crate::escompat::settings;
use crate::text;
use crate::types::{EsColumn, SortDir, SortKey, SortSpec};
use vstd::prelude::*;
use vstd::string::StringExecFns;

verus! {

/// Exit code for a switch that lacks its parameter, or has a bad one.
pub const EXIT_EXPECTED_PARAM: u8 = 4;

/// Exit code for an unknown switch.
pub const EXIT_UNKNOWN_SWITCH: u8 = 6;

/// What the arguments ask for.
#[derive(Clone, Debug, PartialEq)]
pub struct EsPlan {
    /// The search text.
    pub query: String,
    /// Restrict the search to this directory.
    pub scope: Option<String>,
    /// At most this many results.
    pub limit: Option<u32>,
    /// Columns in flag order; a repeated column moves to the end.
    pub columns: Vec<EsColumn>,
    pub sort: SortSpec,
    /// Write CSV to this file.
    pub export_csv: Option<String>,
    pub bom: bool,
    pub header: bool,
    pub double_quote: bool,
    pub match_case: bool,
    pub json: bool,
    pub status: bool,
    pub insecure_no_server_check: bool,
}

/// A fatal argument error.
#[derive(Clone, Debug, PartialEq, Eq)]
pub struct EsFatal {
    pub exit_code: u8,
    pub message: String,
}

/// What the arguments ask for, with the words of the query still apart.
#[verifier::ext_equal]
pub ghost struct PlanModel {
    pub words: Seq<Seq<char>>,
    pub scope: Option<Seq<char>>,
    pub limit: Option<u32>,
    pub columns: Seq<EsColumn>,
    pub sort: SortSpec,
    pub export_csv: Option<Seq<char>>,
    pub bom: bool,
    pub header: bool,
    pub double_quote: bool,
    pub match_case: bool,
    pub json: bool,
    pub status: bool,
    pub insecure_no_server_check: bool,
}

/// An error as its exit code and message.
#[verifier::ext_equal]
pub ghost struct FatalModel {
    pub exit_code: u8,
    pub message: Seq<char>,
}

pub open spec fn text_of(s: Option<String>) -> Option<Seq<char>> {
    match s {
        Some(s) => Some(s@),
        None => None,
    }
}

/// The plan, given the words of its query.
pub open spec fn plan_model(plan: EsPlan, words: Seq<Seq<char>>) -> PlanModel {
    PlanModel {
        words,
        scope: text_of(plan.scope),
        limit: plan.limit,
        columns: plan.columns@,
        sort: plan.sort,
        export_csv: text_of(plan.export_csv),
        bom: plan.bom,
        header: plan.header,
        double_quote: plan.double_quote,
        match_case: plan.match_case,
        json: plan.json,
        status: plan.status,
        insecure_no_server_check: plan.insecure_no_server_check,
    }
}

/// What no arguments ask for.
pub open spec fn default_plan() -> PlanModel {
    PlanModel {
        words: seq![],
        scope: None,
        limit: None,
        columns: seq![],
        sort: SortSpec { key: SortKey::Name, dir: SortDir::Asc },
        export_csv: None,
        bom: true,
        header: true,
        double_quote: true,
        match_case: false,
        json: false,
        status: false,
        insecure_no_server_check: false,
    }
}

impl Default for EsPlan {
    fn default() -> (plan: EsPlan)
        ensures
            plan_model(plan, seq![]) == default_plan(),
            plan.query@ == Seq::<char>::empty(),
    {
        let plan = EsPlan {
            query: String::new(),
            scope: None,
            limit: None,
            columns: Vec::new(),
            sort: SortSpec::default(),
            export_csv: None,
            bom: true,
            header: true,
            double_quote: true,
            match_case: false,
            json: false,
            status: false,
            insecure_no_server_check: false,
        };
        assert(plan_model(plan, seq![]) =~= default_plan());
        plan
    }
}

impl EsFatal {
    pub open spec fn model(&self) -> FatalModel {
        FatalModel { exit_code: self.exit_code, message: self.message@ }
    }

    /// The error in words.
    pub fn text(&self) -> (s: &str)
        ensures
            s@ == self.message@,
    {
        self.message.as_str()
    }

    fn unknown_switch(token: &str) -> (e: EsFatal)
        ensures
            e.model() == unknown(token@),
    {
        let mut message = String::from_str("unknown switch: ");
        message.append(token);
        EsFatal { exit_code: EXIT_UNKNOWN_SWITCH, message }
    }

    fn missing_param(token: &str) -> (e: EsFatal)
        ensures
            e.model() == missing(token@),
    {
        let mut message = String::from_str("expected an additional parameter after ");
        message.append(token);
        EsFatal { exit_code: EXIT_EXPECTED_PARAM, message }
    }

    fn bad_param(token: &str, value: &str, expected: &str) -> (e: EsFatal)
        ensures
            e.model() == bad(token@, value@, expected@),
    {
        let mut message = String::from_str("expected ");
        message.append(expected);
        message.append(" after ");
        message.append(token);
        message.append(", got: ");
        message.append(value);
        EsFatal { exit_code: EXIT_EXPECTED_PARAM, message }
    }
}

/// The error of an unknown switch.
pub open spec fn unknown(token: Seq<char>) -> FatalModel {
    FatalModel { exit_code: EXIT_UNKNOWN_SWITCH, message: "unknown switch: "@ + token }
}

/// The error of a switch without its parameter.
pub open spec fn missing(token: Seq<char>) -> FatalModel {
    FatalModel {
        exit_code: EXIT_EXPECTED_PARAM,
        message: "expected an additional parameter after "@ + token,
    }
}

/// The error of a switch with a bad parameter.
pub open spec fn bad(token: Seq<char>, value: Seq<char>, expected: Seq<char>) -> FatalModel {
    FatalModel {
        exit_code: EXIT_EXPECTED_PARAM,
        message: "expected "@ + expected + " after "@ + token + ", got: "@ + value,
    }
}

/// What a switch does.
#[derive(Clone, Copy, Debug, PartialEq, Eq, Structural)]
pub enum SwitchAction {
    Limit,
    Scope,
    ExportCsv,
    SortParam,
    Column(EsColumn),
    SortFixed(SortSpec),
    Utf8Bom,
    NoUtf8Bom,
    NoHeader,
    NoDoubleQuote,
    MatchCase,
}

/// `input` is the name `canonical`, of which each dash may be left out.
pub open spec fn names(input: Seq<char>, canonical: Seq<char>) -> bool
    decreases canonical.len(),
{
    if canonical.len() == 0 {
        input.len() == 0
    } else if canonical[0] == '-' {
        if input.len() > 0 && input[0] == '-' {
            names(input.drop_first(), canonical.drop_first())
        } else {
            names(input, canonical.drop_first())
        }
    } else {
        input.len() > 0 && input[0] == canonical[0] && names(
            input.drop_first(),
            canonical.drop_first(),
        )
    }
}

fn switch_name_matches(input: &[char], canonical: &[char]) -> (r: bool)
    ensures
        r == names(input@, canonical@),
{
    let mut i: usize = 0;
    let mut j: usize = 0;
    assert(input@.subrange(0, input@.len() as int) =~= input@);
    assert(canonical@.subrange(0, canonical@.len() as int) =~= canonical@);
    while j < canonical.len()
        invariant
            i <= input@.len(),
            j <= canonical@.len(),
            names(input@, canonical@) == names(
                input@.subrange(i as int, input@.len() as int),
                canonical@.subrange(j as int, canonical@.len() as int),
            ),
        decreases canonical@.len() - j,
    {
        let ghost a = input@.subrange(i as int, input@.len() as int);
        let ghost b = canonical@.subrange(j as int, canonical@.len() as int);
        assert(b[0] == canonical@[j as int]);
        assert(b.drop_first() =~= canonical@.subrange(j + 1, canonical@.len() as int));
        assert(i < input@.len() ==> a[0] == input@[i as int] && a.drop_first() =~= input@.subrange(
            i + 1,
            input@.len() as int,
        ));
        let expected = canonical[j];
        if expected == '-' {
            if i < input.len() && input[i] == '-' {
                i = i + 1;
            }
        } else {
            if i >= input.len() || input[i] != expected {
                return false;
            }
            i = i + 1;
        }
        j = j + 1;
    }
    i == input.len()
}

fn named(input: &[char], canonical: &str) -> (r: bool)
    ensures
        r == names(input@, canonical@),
{
    switch_name_matches(input, text::chars(canonical).as_slice())
}

/// What the sort name `base` asks for in one of its three forms: by itself,
/// with `-ascending` or with `-descending`.
pub open spec fn sort_form(input: Seq<char>, base: Seq<char>, key: SortKey) -> Option<SortSpec> {
    if names(input, base) {
        Some(SortSpec { key, dir: crate::types::default_dir(key) })
    } else if names(input, base + "-ascending"@) {
        Some(SortSpec { key, dir: SortDir::Asc })
    } else if names(input, base + "-descending"@) {
        Some(SortSpec { key, dir: SortDir::Desc })
    } else {
        None
    }
}

fn match_sort_form(input: &[char], base: &str, key: SortKey) -> (r: Option<SortSpec>)
    ensures
        r == sort_form(input@, base@, key),
{
    if named(input, base) {
        return Some(SortSpec::default_for(key));
    }
    let mut up = String::from_str(base);
    up.append("-ascending");
    if named(input, up.as_str()) {
        return Some(SortSpec { key, dir: SortDir::Asc });
    }
    let mut down = String::from_str(base);
    down.append("-descending");
    if named(input, down.as_str()) {
        return Some(SortSpec { key, dir: SortDir::Desc });
    }
    None
}

/// The sort that `input` names, where each sort name has `front` before it.
pub open spec fn sort_named(input: Seq<char>, front: Seq<char>) -> Option<SortSpec> {
    if sort_form(input, front + "name"@, SortKey::Name) is Some {
        sort_form(input, front + "name"@, SortKey::Name)
    } else if sort_form(input, front + "path"@, SortKey::Path) is Some {
        sort_form(input, front + "path"@, SortKey::Path)
    } else if sort_form(input, front + "size"@, SortKey::Size) is Some {
        sort_form(input, front + "size"@, SortKey::Size)
    } else if sort_form(input, front + "dm"@, SortKey::DateModified) is Some {
        sort_form(input, front + "dm"@, SortKey::DateModified)
    } else {
        sort_form(input, front + "date-modified"@, SortKey::DateModified)
    }
}

fn joined(front: &str, back: &str) -> (s: String)
    ensures
        s@ == front@ + back@,
{
    let mut s = String::from_str(front);
    s.append(back);
    s
}

fn match_sort(input: &[char], front: &str) -> (r: Option<SortSpec>)
    ensures
        r == sort_named(input@, front@),
{
    if let Some(s) = match_sort_form(input, joined(front, "name").as_str(), SortKey::Name) {
        return Some(s);
    }
    if let Some(s) = match_sort_form(input, joined(front, "path").as_str(), SortKey::Path) {
        return Some(s);
    }
    if let Some(s) = match_sort_form(input, joined(front, "size").as_str(), SortKey::Size) {
        return Some(s);
    }
    if let Some(s) = match_sort_form(input, joined(front, "dm").as_str(), SortKey::DateModified) {
        return Some(s);
    }
    match_sort_form(input, joined(front, "date-modified").as_str(), SortKey::DateModified)
}

/// The sort that the parameter of `-sort` names.
pub open spec fn sort_param(value: Seq<char>) -> Option<SortSpec> {
    sort_named(value, ""@)
}

/// The switch that `name` is.
#[verifier::opaque]
pub open spec fn switch_of(name: Seq<char>) -> Option<SwitchAction> {
    if names(name, "n"@) || names(name, "max-results"@) {
        Some(SwitchAction::Limit)
    } else if names(name, "path"@) {
        Some(SwitchAction::Scope)
    } else if names(name, "size"@) {
        Some(SwitchAction::Column(EsColumn::Size))
    } else if names(name, "dm"@) || names(name, "date-modified"@) {
        Some(SwitchAction::Column(EsColumn::DateModified))
    } else if names(name, "sort"@) {
        Some(SwitchAction::SortParam)
    } else if names(name, "export-csv"@) {
        Some(SwitchAction::ExportCsv)
    } else if names(name, "utf8-bom"@) {
        Some(SwitchAction::Utf8Bom)
    } else if names(name, "no-utf8-bom"@) {
        Some(SwitchAction::NoUtf8Bom)
    } else if names(name, "no-header"@) {
        Some(SwitchAction::NoHeader)
    } else if names(name, "no-double-quote"@) {
        Some(SwitchAction::NoDoubleQuote)
    } else if names(name, "case"@) || names(name, "match-case"@) {
        Some(SwitchAction::MatchCase)
    } else {
        match sort_named(name, "sort-"@) {
            Some(s) => Some(SwitchAction::SortFixed(s)),
            None => None,
        }
    }
}

fn match_switch(name: &[char]) -> (r: Option<SwitchAction>)
    ensures
        r == switch_of(name@),
{
    reveal(switch_of);
    if named(name, "n") || named(name, "max-results") {
        Some(SwitchAction::Limit)
    } else if named(name, "path") {
        Some(SwitchAction::Scope)
    } else if named(name, "size") {
        Some(SwitchAction::Column(EsColumn::Size))
    } else if named(name, "dm") || named(name, "date-modified") {
        Some(SwitchAction::Column(EsColumn::DateModified))
    } else if named(name, "sort") {
        Some(SwitchAction::SortParam)
    } else if named(name, "export-csv") {
        Some(SwitchAction::ExportCsv)
    } else if named(name, "utf8-bom") {
        Some(SwitchAction::Utf8Bom)
    } else if named(name, "no-utf8-bom") {
        Some(SwitchAction::NoUtf8Bom)
    } else if named(name, "no-header") {
        Some(SwitchAction::NoHeader)
    } else if named(name, "no-double-quote") {
        Some(SwitchAction::NoDoubleQuote)
    } else if named(name, "case") || named(name, "match-case") {
        Some(SwitchAction::MatchCase)
    } else {
        match match_sort(name, "sort-") {
            Some(s) => Some(SwitchAction::SortFixed(s)),
            None => None,
        }
    }
}

/// The switch is followed by a parameter.
pub open spec fn takes_param(action: SwitchAction) -> bool {
    action == SwitchAction::Limit || action == SwitchAction::Scope || action
        == SwitchAction::ExportCsv || action == SwitchAction::SortParam
}

/// The columns but for `c`.
pub open spec fn without(cols: Seq<EsColumn>, c: EsColumn) -> Seq<EsColumn>
    decreases cols.len(),
{
    if cols.len() == 0 {
        cols
    } else if cols.last() == c {
        without(cols.drop_last(), c)
    } else {
        without(cols.drop_last(), c).push(cols.last())
    }
}

fn remove_column(cols: &Vec<EsColumn>, c: EsColumn) -> (out: Vec<EsColumn>)
    ensures
        out@ == without(cols@, c),
{
    let mut out: Vec<EsColumn> = Vec::new();
    let mut i: usize = 0;
    assert(cols@.subrange(0, 0) =~= Seq::<EsColumn>::empty());
    while i < cols.len()
        invariant
            i <= cols@.len(),
            out@ == without(cols@.subrange(0, i as int), c),
        decreases cols@.len() - i,
    {
        assert(cols@.subrange(0, i + 1).drop_last() =~= cols@.subrange(0, i as int));
        if cols[i] != c {
            out.push(cols[i]);
        }
        i = i + 1;
    }
    assert(cols@.subrange(0, i as int) =~= cols@);
    out
}

/// The plan after a switch without parameter.
pub open spec fn with_switch(plan: PlanModel, action: SwitchAction) -> PlanModel {
    match action {
        SwitchAction::Column(c) => PlanModel { columns: without(plan.columns, c).push(c), ..plan },
        SwitchAction::SortFixed(s) => PlanModel { sort: s, ..plan },
        SwitchAction::Utf8Bom => PlanModel { bom: true, ..plan },
        SwitchAction::NoUtf8Bom => PlanModel { bom: false, ..plan },
        SwitchAction::NoHeader => PlanModel { header: false, ..plan },
        SwitchAction::NoDoubleQuote => PlanModel { double_quote: false, ..plan },
        SwitchAction::MatchCase => PlanModel { match_case: true, ..plan },
        _ => plan,
    }
}

/// The plan after a switch with its parameter.
pub open spec fn with_param(
    plan: PlanModel,
    action: SwitchAction,
    token: Seq<char>,
    value: Seq<char>,
) -> Result<PlanModel, FatalModel> {
    match action {
        SwitchAction::Limit => match text::number(value, u32::MAX as nat) {
            Some(n) => Ok(PlanModel { limit: Some(n as u32), ..plan }),
            None => Err(bad(token, value, "a number"@)),
        },
        SwitchAction::Scope => Ok(PlanModel { scope: Some(value), ..plan }),
        SwitchAction::ExportCsv => Ok(PlanModel { export_csv: Some(value), ..plan }),
        _ => match sort_param(value) {
            Some(s) => Ok(PlanModel { sort: s, ..plan }),
            None => Err(bad(token, value, "a sort key"@)),
        },
    }
}

/// What a switch and its parameter, if it has one, do to the plan.
fn apply_switch(
    action: SwitchAction,
    token: &str,
    param: Option<&String>,
    plan: &mut EsPlan,
) -> (r: Result<(), EsFatal>)
    ensures
        takes_param(action) && param is None ==> r is Err && r->Err_0.model() == missing(token@),
        takes_param(action) && param is Some ==> forall|w: Seq<Seq<char>>|
            match #[trigger] with_param(plan_model(*old(plan), w), action, token@, param->Some_0@) {
                Ok(m) => r is Ok && plan_model(*final(plan), w) == m,
                Err(e) => r is Err && r->Err_0.model() == e,
            },
        !takes_param(action) ==> r is Ok && forall|w: Seq<Seq<char>>|
            plan_model(*final(plan), w) == #[trigger] with_switch(plan_model(*old(plan), w), action),
{
    match action {
        SwitchAction::Limit => match param {
            None => {
                return Err(EsFatal::missing_param(token));
            },
            Some(value) => {
                let chars = text::chars(value.as_str());
                match text::parse_number(chars.as_slice(), u32::MAX as u64) {
                    Some(n) => {
                        plan.limit = Some(n as u32);
                    },
                    None => {
                        return Err(EsFatal::bad_param(token, value.as_str(), "a number"));
                    },
                }
            },
        },
        SwitchAction::Scope => match param {
            None => {
                return Err(EsFatal::missing_param(token));
            },
            Some(value) => {
                plan.scope = Some(value.as_str().to_owned());
            },
        },
        SwitchAction::ExportCsv => match param {
            None => {
                return Err(EsFatal::missing_param(token));
            },
            Some(value) => {
                plan.export_csv = Some(value.as_str().to_owned());
            },
        },
        SwitchAction::SortParam => match param {
            None => {
                return Err(EsFatal::missing_param(token));
            },
            Some(value) => {
                let chars = text::chars(value.as_str());
                match match_sort(chars.as_slice(), "") {
                    Some(s) => {
                        plan.sort = s;
                    },
                    None => {
                        return Err(EsFatal::bad_param(token, value.as_str(), "a sort key"));
                    },
                }
            },
        },
        SwitchAction::Column(column) => {
            let mut columns = remove_column(&plan.columns, column);
            columns.push(column);
            plan.columns = columns;
        },
        SwitchAction::SortFixed(s) => {
            plan.sort = s;
        },
        SwitchAction::Utf8Bom => {
            plan.bom = true;
        },
        SwitchAction::NoUtf8Bom => {
            plan.bom = false;
        },
        SwitchAction::NoHeader => {
            plan.header = false;
        },
        SwitchAction::NoDoubleQuote => {
            plan.double_quote = false;
        },
        SwitchAction::MatchCase => {
            plan.match_case = true;
        },
    }
    Ok(())
}

/// The token is one dash or more and nothing else.
pub open spec fn all_dashes(t: Seq<char>) -> bool {
    t.len() > 0 && forall|k: int| 0 <= k < t.len() ==> t[k] == '-'
}

fn is_all_dashes(t: &[char]) -> (r: bool)
    ensures
        r == all_dashes(t@),
{
    if t.len() == 0 {
        return false;
    }
    let mut i: usize = 0;
    while i < t.len()
        invariant
            i <= t@.len(),
            forall|k: int| 0 <= k < i ==> t@[k] == '-',
        decreases t@.len() - i,
    {
        if t[i] != '-' {
            return false;
        }
        i = i + 1;
    }
    true
}

/// What one token is.
#[derive(Clone, Copy, Debug, PartialEq, Eq, Structural)]
pub enum TokenKind {
    /// A word of the query.
    Word,
    /// `--json`, `--status` or `--insecure-no-server-check`.
    Json,
    Status,
    Insecure,
    /// A switch.
    Switch(SwitchAction),
    /// None of the above.
    Unknown,
}

/// What the token `t` is.
#[verifier::opaque]
pub open spec fn token_kind(t: Seq<char>) -> TokenKind {
    let after = t.subrange(1, t.len() as int);
    if all_dashes(t) {
        TokenKind::Word
    } else if text::starts(t, "--"@) {
        let native = t.subrange("--"@.len() as int, t.len() as int);
        if native == "json"@ {
            TokenKind::Json
        } else if native == "status"@ {
            TokenKind::Status
        } else if native == "insecure-no-server-check"@ {
            TokenKind::Insecure
        } else {
            TokenKind::Unknown
        }
    } else if t.len() > 0 && (t[0] == '-' || t[0] == '/') {
        match switch_of(after) {
            Some(action) => TokenKind::Switch(action),
            None => if t[0] == '/' {
                TokenKind::Word
            } else {
                TokenKind::Unknown
            },
        }
    } else {
        TokenKind::Word
    }
}

fn classify(t: &[char]) -> (kind: TokenKind)
    ensures
        kind == token_kind(t@),
{
    reveal(token_kind);
    if is_all_dashes(t) {
        return TokenKind::Word;
    }
    if let Some(native) = text::strip_prefix(t, "--") {
        return if text::same(native, "json") {
            TokenKind::Json
        } else if text::same(native, "status") {
            TokenKind::Status
        } else if text::same(native, "insecure-no-server-check") {
            TokenKind::Insecure
        } else {
            TokenKind::Unknown
        };
    }
    if t.len() > 0 && (t[0] == '-' || t[0] == '/') {
        match match_switch(vstd::slice::slice_subrange(t, 1, t.len())) {
            Some(action) => TokenKind::Switch(action),
            None => if t[0] == '/' {
                TokenKind::Word
            } else {
                TokenKind::Unknown
            },
        }
    } else {
        TokenKind::Word
    }
}

fn needs_param(action: SwitchAction) -> (r: bool)
    ensures
        r == takes_param(action),
{
    match action {
        SwitchAction::Limit
        | SwitchAction::Scope
        | SwitchAction::ExportCsv
        | SwitchAction::SortParam => true,
        _ => false,
    }
}

/// What the first of the arguments does to `plan`, and how many arguments it
/// takes, its parameter included.
pub open spec fn with_arg(plan: PlanModel, args: Seq<Seq<char>>) -> Result<
    (PlanModel, int),
    FatalModel,
> {
    let t = args[0];
    match token_kind(t) {
        TokenKind::Word => Ok((PlanModel { words: plan.words.push(t), ..plan }, 1)),
        TokenKind::Json => Ok((PlanModel { json: true, ..plan }, 1)),
        TokenKind::Status => Ok((PlanModel { status: true, ..plan }, 1)),
        TokenKind::Insecure => Ok((PlanModel { insecure_no_server_check: true, ..plan }, 1)),
        TokenKind::Unknown => Err(unknown(t)),
        TokenKind::Switch(action) => if !takes_param(action) {
            Ok((with_switch(plan, action), 1))
        } else if args.len() < 2 {
            Err(missing(t))
        } else {
            match with_param(plan, action, t, args[1]) {
                Ok(next) => Ok((next, 2)),
                Err(e) => Err(e),
            }
        },
    }
}

/// What the arguments ask for beyond `plan`, or the first error among them.
pub open spec fn with_args(plan: PlanModel, args: Seq<Seq<char>>) -> Result<PlanModel, FatalModel>
    decreases args.len(),
{
    if args.len() == 0 {
        Ok(plan)
    } else {
        match with_arg(plan, args) {
            Ok((next, n)) => with_args(next, args.subrange(n, args.len() as int)),
            Err(e) => Err(e),
        }
    }
}

/// The words with single spaces between them.
pub open spec fn spaced(words: Seq<Seq<char>>) -> Seq<char>
    decreases words.len(),
{
    if words.len() == 0 {
        seq![]
    } else if words.len() == 1 {
        words[0]
    } else {
        spaced(words.drop_last()) + seq![' '] + words.last()
    }
}

pub open spec fn arg_texts(args: Seq<String>) -> Seq<Seq<char>> {
    args.map_values(|s: String| s@)
}

spec fn word_texts(words: Seq<String>) -> Seq<Seq<char>> {
    words.map_values(|w: String| w@)
}

/// Does what the argument at `i` asks for; returns how many arguments it took.
fn apply_arg(args: &[String], i: usize, plan: &mut EsPlan, words: &mut Vec<String>) -> (r: Result<
    usize,
    EsFatal,
>)
    requires
        i < args@.len(),
    ensures
        match with_arg(
            plan_model(*old(plan), word_texts(old(words)@)),
            arg_texts(args@).subrange(i as int, args@.len() as int),
        ) {
            Ok((m, n)) => r is Ok && r->Ok_0 == n && plan_model(
                *final(plan),
                word_texts(final(words)@),
            ) == m,
            Err(e) => r is Err && r->Err_0.model() == e,
        },
{
    let token = args[i].as_str();
    let chars = text::chars(token);
    let ghost before = plan_model(*plan, word_texts(words@));
    match classify(chars.as_slice()) {
        TokenKind::Word => {
            let word = token.to_owned();
            assert(word_texts(words@.push(word)) =~= word_texts(words@).push(word@));
            words.push(word);
            Ok(1)
        },
        TokenKind::Json => {
            plan.json = true;
            Ok(1)
        },
        TokenKind::Status => {
            plan.status = true;
            Ok(1)
        },
        TokenKind::Insecure => {
            plan.insecure_no_server_check = true;
            Ok(1)
        },
        TokenKind::Unknown => Err(EsFatal::unknown_switch(token)),
        TokenKind::Switch(action) => {
            if needs_param(action) {
                let param = if i + 1 < args.len() {
                    Some(&args[i + 1])
                } else {
                    None
                };
                let ghost after = with_param(before, action, token@, param->Some_0@);
                match apply_switch(action, token, param, plan) {
                    Ok(_) => Ok(2),
                    Err(e) => Err(e),
                }
            } else {
                let ghost after = with_switch(before, action);
                match apply_switch(action, token, None, plan) {
                    Ok(_) => Ok(1),
                    Err(e) => Err(e),
                }
            }
        },
    }
}

/// The words with single spaces between them.
fn join(words: &Vec<String>) -> (s: String)
    ensures
        s@ == spaced(word_texts(words@)),
{
    let mut s = String::new();
    let mut i: usize = 0;
    let ghost all = word_texts(words@);
    assert(all.subrange(0, 0) =~= Seq::<Seq<char>>::empty());
    while i < words.len()
        invariant
            i <= words@.len(),
            all == word_texts(words@),
            s@ == spaced(all.subrange(0, i as int)),
        decreases words@.len() - i,
    {
        let ghost front = all.subrange(0, i + 1);
        assert(front.drop_last() =~= all.subrange(0, i as int));
        if i > 0 {
            s.push(' ');
        }
        s.append(words[i].as_str());
        i = i + 1;
        assert(s@ =~= spaced(front));
    }
    assert(all.subrange(0, i as int) =~= all);
    s
}

/// Parses the arguments, without the program's name.
pub fn parse_argv(args: &[String]) -> (r: Result<EsPlan, EsFatal>)
    ensures
        match with_args(default_plan(), arg_texts(args@)) {
            Ok(m) => r is Ok && plan_model(r->Ok_0, m.words) == m && r->Ok_0.query@ == spaced(
                m.words,
            ),
            Err(e) => r is Err && r->Err_0.model() == e,
        },
        r matches Ok(plan) ==> settings::planned(plan, arg_texts(args@)),
        r matches Err(e) ==> exists|i: int| #[trigger]
            settings::first_fault(arg_texts(args@), i) && e.model() == settings::fault(
                arg_texts(args@),
                i,
            ),
        r is Ok <==> forall|i: int|
            0 <= i < args@.len() ==> !#[trigger] settings::faulty(arg_texts(args@), i),
{
    let mut plan = EsPlan::default();
    let mut words: Vec<String> = Vec::new();
    let ghost all = arg_texts(args@);
    let ghost want = with_args(default_plan(), all);
    let mut i: usize = 0;
    assert(all.subrange(0, all.len() as int) =~= all);
    assert(word_texts(words@) =~= Seq::<Seq<char>>::empty());
    while i < args.len()
        invariant
            i <= args@.len(),
            all == arg_texts(args@),
            want == with_args(default_plan(), all),
            want == with_args(
                plan_model(plan, word_texts(words@)),
                all.subrange(i as int, all.len() as int),
            ),
        decreases args@.len() - i,
    {
        let ghost rest = all.subrange(i as int, all.len() as int);
        match apply_arg(args, i, &mut plan, &mut words) {
            Ok(n) => {
                assert(rest.subrange(n as int, rest.len() as int) =~= all.subrange(
                    i + n,
                    all.len() as int,
                ));
                i = i + n;
            },
            Err(e) => {
                proof {
                    settings::law_each_setting_has_its_own_switches(all);
                }
                return Err(e);
            },
        }
    }
    plan.query = join(&words);
    proof {
        settings::lemma_planned(plan, want->Ok_0, all);
        settings::law_each_setting_has_its_own_switches(all);
    }
    Ok(plan)
}

/// A name is recognised as it is written, and with all its dashes left out.
pub proof fn law_dashes_are_optional(canonical: Seq<char>)
    ensures
        names(canonical, canonical),
        names(without_dashes(canonical), canonical),
    decreases canonical.len(),
{
    if canonical.len() > 0 {
        law_dashes_are_optional(canonical.drop_first());
        let tail = without_dashes(canonical.drop_first());
        if canonical[0] == '-' {
            lemma_without_dashes(canonical.drop_first());
        } else {
            assert(without_dashes(canonical).drop_first() =~= tail);
        }
    }
}

/// `s` without its dashes.
pub open spec fn without_dashes(s: Seq<char>) -> Seq<char>
    decreases s.len(),
{
    if s.len() == 0 {
        s
    } else if s[0] == '-' {
        without_dashes(s.drop_first())
    } else {
        seq![s[0]] + without_dashes(s.drop_first())
    }
}

proof fn lemma_without_dashes(s: Seq<char>)
    ensures
        without_dashes(s).len() > 0 ==> without_dashes(s)[0] != '-',
    decreases s.len(),
{
    if s.len() > 0 {
        lemma_without_dashes(s.drop_first());
    }
}

proof fn lemma_without(cols: Seq<EsColumn>, c: EsColumn)
    requires
        cols.no_duplicates(),
    ensures
        without(cols, c).no_duplicates(),
        forall|k: int|
            0 <= k < without(cols, c).len() ==> cols.contains(#[trigger] without(cols, c)[k])
                && without(cols, c)[k] != c,
    decreases cols.len(),
{
    if cols.len() > 0 {
        let init = cols.drop_last();
        let w = without(init, c);
        assert(init.no_duplicates());
        lemma_without(init, c);
        assert forall|k: int| 0 <= k < w.len() implies cols.contains(#[trigger] w[k]) && w[k]
            != cols.last() by {
            let j = choose|j: int| 0 <= j < init.len() && init[j] == w[k];
            assert(cols[j] == w[k]);
            assert(cols[j] != cols[cols.len() - 1]);
        }
        if cols.last() != c {
            assert(cols[cols.len() - 1] == cols.last());
            assert(!w.contains(cols.last()));
            lemma_push_distinct(w, cols.last());
            assert forall|k: int| 0 <= k < without(cols, c).len() implies cols.contains(
                #[trigger] without(cols, c)[k],
            ) && without(cols, c)[k] != c by {
                if k < w.len() {
                    assert(without(cols, c)[k] == w[k]);
                }
            }
        }
    }
}

proof fn lemma_push_distinct(cols: Seq<EsColumn>, c: EsColumn)
    requires
        cols.no_duplicates(),
        !cols.contains(c),
    ensures
        cols.push(c).no_duplicates(),
{
    let all = cols.push(c);
    assert forall|i: int, j: int| 0 <= i < all.len() && 0 <= j < all.len() && i != j implies all[i]
        != all[j] by {
        if i == cols.len() {
            assert(cols[j] == all[j]);
            assert(cols.contains(cols[j]));
        } else if j == cols.len() {
            assert(cols[i] == all[i]);
            assert(cols.contains(cols[i]));
        }
    }
}

/// However often a column is asked for, it is shown once.
pub proof fn law_columns_are_distinct(plan: PlanModel, args: Seq<Seq<char>>)
    requires
        plan.columns.no_duplicates(),
    ensures
        with_args(plan, args) matches Ok(m) ==> m.columns.no_duplicates(),
    decreases args.len(),
{
    if args.len() > 0 {
        if let Ok((next, n)) = with_arg(plan, args) {
            if let TokenKind::Switch(action) = token_kind(args[0]) {
                if let SwitchAction::Column(c) = action {
                    lemma_without(plan.columns, c);
                    assert(!without(plan.columns, c).contains(c));
                    lemma_push_distinct(without(plan.columns, c), c);
                }
            }
            law_columns_are_distinct(next, args.subrange(n, args.len() as int));
        }
    }
}

/// Arguments that begin with neither dash nor slash are the query, and set
/// nothing else.
pub proof fn law_plain_words_are_the_query(plan: PlanModel, args: Seq<Seq<char>>)
    requires
        forall|k: int|
            0 <= k < args.len() ==> (#[trigger] args[k]).len() == 0 || (args[k][0] != '-'
                && args[k][0] != '/'),
    ensures
        with_args(plan, args) == Ok::<PlanModel, FatalModel>(
            PlanModel { words: plan.words + args, ..plan },
        ),
    decreases args.len(),
{
    reveal_strlit("--");
    reveal(token_kind);
    if args.len() == 0 {
        assert(plan.words + args =~= plan.words);
    } else {
        let t = args[0];
        assert(!text::starts(t, "--"@)) by {
            if text::starts(t, "--"@) {
                assert(t.subrange(0, "--"@.len() as int)[0] == t[0]);
            }
        }
        assert(!all_dashes(t));
        let next = PlanModel { words: plan.words.push(t), ..plan };
        let rest = args.subrange(1, args.len() as int);
        assert forall|k: int| 0 <= k < rest.len() implies (#[trigger] rest[k]).len() == 0 || (
        rest[k][0] != '-' && rest[k][0] != '/') by {
            assert(rest[k] == args[k + 1]);
        }
        law_plain_words_are_the_query(next, rest);
        assert(plan.words.push(t) + rest =~= plan.words + args);
    }
}

} // verus!
