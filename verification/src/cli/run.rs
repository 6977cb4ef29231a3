//! From a plan to what is printed.

use crate::cli::client::ClientError;
use crate::escompat::argv::EsPlan;
use crate::output::csv;
use crate::output::csv::{write_csv, CsvOptions, CsvRow};
use crate::output::filetime;
use crate::proto::types::{
    DaemonStatus, QueryRequest, QueryResults, Response, ResultItem,
};
use crate::types::EsColumn;
use jiff::tz::TimeZone;
use jiff::{Timestamp, Zoned};
use vstd::prelude::*;
use vstd::string::StringExecFns;
use vstd::utf8::*;

verus! {

/// A file or stream cannot be written.
pub const EXIT_OUTPUT: u8 = 5;

/// The server refused the query.
pub const EXIT_REFUSED: u8 = 4;

/// A reply makes no sense, or none came.
pub const EXIT_PROTOCOL: u8 = 7;

/// The server is not running.
pub const EXIT_UNREACHABLE: u8 = 8;

/// The server is not the trusted one.
pub const EXIT_UNTRUSTED: u8 = 9;

/// What es.exe prints when it finds no server.
pub const UNREACHABLE_TEXT: &'static str =
    "Error 8: Everything IPC window not found. Please make sure Everything is running.";

pub const START_HINT: &'static str =
    "goz: the gozd daemon is not running (start it with `gozd run`).";

pub const UNTRUSTED_TEXT: &'static str =
    "goz: the pipe server is not the trusted gozd daemon (owner is not SYSTEM/Administrators).";

pub const UNTRUSTED_HINT: &'static str =
    "goz: refusing to send the query. If this is expected, pass --insecure-no-server-check.";

pub const INCOMPLETE_TEXT: &'static str =
    "goz: warning: some volumes are still indexing or unavailable; results may be incomplete";

/// How the client ends when it fails: lines for the error stream, and the exit
/// code.
#[derive(Clone, Debug, PartialEq, Eq)]
pub struct Failure {
    pub lines: Vec<String>,
    pub code: u8,
}

/// What a failure says.
#[verifier::ext_equal]
pub ghost struct FailureModel {
    pub lines: Seq<Seq<char>>,
    pub code: u8,
}

impl Failure {
    pub open spec fn model(&self) -> FailureModel {
        FailureModel {
            lines: self.lines@.map_values(|l: String| l@),
            code: self.code,
        }
    }

    fn one(line: String, code: u8) -> (f: Failure)
        ensures
            f.model() == (FailureModel { lines: seq![line@], code }),
    {
        let mut lines: Vec<String> = Vec::new();
        lines.push(line);
        let f = Failure { lines, code };
        assert(f.model().lines =~= seq![line@]);
        f
    }

    fn two(first: &str, second: &str, code: u8) -> (f: Failure)
        ensures
            f.model() == (FailureModel { lines: seq![first@, second@], code }),
    {
        let mut lines: Vec<String> = Vec::new();
        lines.push(String::from_str(first));
        lines.push(String::from_str(second));
        let f = Failure { lines, code };
        assert(f.model().lines =~= seq![first@, second@]);
        f
    }
}

fn prefixed(prefix: &str, rest: &str) -> (s: String)
    ensures
        s@ == prefix@ + rest@,
{
    let mut s = String::from_str(prefix);
    s.append(rest);
    s
}

/// The file to write to cannot be made.
pub fn create_failure(path: &str, cause: &str) -> (f: Failure)
    ensures
        f.model() == (FailureModel {
            lines: seq!["goz: cannot create "@ + path@ + ": "@ + cause@],
            code: EXIT_OUTPUT,
        }),
{
    let mut s = String::from_str("goz: cannot create ");
    s.append(path);
    s.append(": ");
    s.append(cause);
    Failure::one(s, EXIT_OUTPUT)
}

/// The export cannot be written.
pub fn export_failure(cause: &str) -> (f: Failure)
    ensures
        f.model() == (FailureModel {
            lines: seq!["goz: writing export CSV failed: "@ + cause@],
            code: EXIT_OUTPUT,
        }),
{
    Failure::one(prefixed("goz: writing export CSV failed: ", cause), EXIT_OUTPUT)
}

/// The results cannot be encoded as JSON.
pub fn json_failure(cause: &str) -> (f: Failure)
    ensures
        f.model() == (FailureModel {
            lines: seq!["goz: JSON encoding failed: "@ + cause@],
            code: EXIT_PROTOCOL,
        }),
{
    Failure::one(prefixed("goz: JSON encoding failed: ", cause), EXIT_PROTOCOL)
}

/// The list cannot be written. A reader that has gone away is no failure.
pub fn list_failure(reader_gone: bool, cause: &str) -> (f: Option<Failure>)
    ensures
        f is None <==> reader_gone,
        f matches Some(f) ==> f.model() == (FailureModel {
            lines: seq!["goz: writing results failed: "@ + cause@],
            code: EXIT_OUTPUT,
        }),
{
    if reader_gone {
        None
    } else {
        Some(Failure::one(prefixed("goz: writing results failed: ", cause), EXIT_OUTPUT))
    }
}

/// How the client ends when it could not connect.
pub open spec fn connect_model(e: ClientError) -> FailureModel {
    match e {
        ClientError::Unreachable => FailureModel {
            lines: seq![UNREACHABLE_TEXT@, START_HINT@],
            code: EXIT_UNREACHABLE,
        },
        ClientError::Untrusted => FailureModel {
            lines: seq![UNTRUSTED_TEXT@, UNTRUSTED_HINT@],
            code: EXIT_UNTRUSTED,
        },
        ClientError::Protocol(m) => FailureModel {
            lines: seq!["goz: "@ + m@],
            code: EXIT_PROTOCOL,
        },
    }
}

/// How the client ends when it could not connect.
pub fn connect_failure(e: &ClientError) -> (f: Failure)
    ensures
        f.model() == connect_model(*e),
{
    match e {
        ClientError::Unreachable => Failure::two(UNREACHABLE_TEXT, START_HINT, EXIT_UNREACHABLE),
        ClientError::Untrusted => Failure::two(UNTRUSTED_TEXT, UNTRUSTED_HINT, EXIT_UNTRUSTED),
        ClientError::Protocol(m) => Failure::one(prefixed("goz: ", m.as_str()), EXIT_PROTOCOL),
    }
}

/// How the client ends when a request came to nothing.
pub open spec fn request_model(e: ClientError) -> FailureModel {
    match e {
        ClientError::Unreachable => FailureModel {
            lines: seq![UNREACHABLE_TEXT@],
            code: EXIT_UNREACHABLE,
        },
        ClientError::Untrusted => FailureModel {
            lines: seq!["goz: pipe server not trusted"@],
            code: EXIT_UNTRUSTED,
        },
        ClientError::Protocol(m) => FailureModel {
            lines: seq!["goz: "@ + m@],
            code: EXIT_PROTOCOL,
        },
    }
}

fn request_failure(e: &ClientError) -> (f: Failure)
    ensures
        f.model() == request_model(*e),
{
    match e {
        ClientError::Unreachable => Failure::one(
            String::from_str(UNREACHABLE_TEXT),
            EXIT_UNREACHABLE,
        ),
        ClientError::Untrusted => Failure::one(
            String::from_str("goz: pipe server not trusted"),
            EXIT_UNTRUSTED,
        ),
        ClientError::Protocol(m) => Failure::one(prefixed("goz: ", m.as_str()), EXIT_PROTOCOL),
    }
}

/// The results that a reply to a query holds, or how the client ends.
pub fn query_reply(reply: Result<Response, ClientError>) -> (r: Result<QueryResults, Failure>)
    ensures
        match reply {
            Ok(Response::Results(results)) => r == Ok::<QueryResults, Failure>(results),
            Ok(Response::Error { code: _, message }) => r is Err && r->Err_0.model()
                == (FailureModel { lines: seq!["goz: "@ + message@], code: EXIT_REFUSED }),
            Ok(_) => r is Err && r->Err_0.model() == (FailureModel {
                lines: seq!["goz: unexpected reply from daemon"@],
                code: EXIT_PROTOCOL,
            }),
            Err(e) => r is Err && r->Err_0.model() == request_model(e),
        },
{
    match reply {
        Ok(Response::Results(results)) => Ok(results),
        Ok(Response::Error { code: _, message }) => Err(
            Failure::one(prefixed("goz: ", message.as_str()), EXIT_REFUSED),
        ),
        Ok(_) => Err(
            Failure::one(String::from_str("goz: unexpected reply from daemon"), EXIT_PROTOCOL),
        ),
        Err(e) => Err(request_failure(&e)),
    }
}

/// The status that a reply holds, or how the client ends.
pub fn status_reply(reply: Result<Response, ClientError>) -> (r: Result<DaemonStatus, Failure>)
    ensures
        match reply {
            Ok(Response::Status(status)) => r == Ok::<DaemonStatus, Failure>(status),
            Ok(_) => r is Err && r->Err_0.model() == (FailureModel {
                lines: seq!["goz: unexpected reply to status"@],
                code: EXIT_PROTOCOL,
            }),
            Err(e) => r is Err && r->Err_0.model() == request_model(e),
        },
{
    match reply {
        Ok(Response::Status(status)) => Ok(status),
        Ok(_) => Err(
            Failure::one(String::from_str("goz: unexpected reply to status"), EXIT_PROTOCOL),
        ),
        Err(e) => Err(request_failure(&e)),
    }
}

/// The request for what a plan asks for. `scope` is the directory of the plan
/// as an absolute path. Sizes and times are always asked for; what is printed
/// decides whether they are shown.
pub fn build_query(plan: &EsPlan, scope: Option<String>) -> (q: QueryRequest)
    ensures
        q.query@ == plan.query@,
        q.scope == scope,
        q.sort == plan.sort,
        q.offset == 0,
        q.limit == plan.limit,
        q.want_size,
        q.want_mtime,
        q.match_case == plan.match_case,
{
    QueryRequest {
        query: String::from_str(plan.query.as_str()),
        scope,
        sort: plan.sort,
        offset: 0,
        limit: plan.limit,
        want_size: true,
        want_mtime: true,
        match_case: plan.match_case,
    }
}

/// The directory of a plan as it is sent. `absolute` is the absolute path if
/// there is one; if not, the path is sent as it stands, with a warning.
pub fn scope_to_send(path: &str, absolute: Option<String>) -> (r: (String, Option<String>))
    ensures
        absolute matches Some(a) ==> r.0@ == a@ && r.1 is None,
        absolute is None ==> r.0@ == path@ && r.1 is Some && r.1->Some_0@
            == "goz: warning: could not resolve '"@ + path@
            + "' to an absolute path; scope may not match"@,
{
    match absolute {
        Some(a) => (a, None),
        None => {
            let mut w = String::from_str("goz: warning: could not resolve '");
            w.append(path);
            w.append("' to an absolute path; scope may not match");
            (String::from_str(path), Some(w))
        },
    }
}

/// Where the results go.
#[derive(Clone, Copy, Debug, PartialEq, Eq, Structural)]
pub enum Output {
    /// A CSV file.
    Csv,
    /// JSON on the output stream.
    Json,
    /// One path per line on the output stream.
    List,
}

/// Where a plan sends its results: a file, if it names one, comes first.
pub fn output_of(plan: &EsPlan) -> (o: Output)
    ensures
        o == if plan.export_csv is Some {
            Output::Csv
        } else if plan.json {
            Output::Json
        } else {
            Output::List
        },
{
    if plan.export_csv.is_some() {
        Output::Csv
    } else if plan.json {
        Output::Json
    } else {
        Output::List
    }
}

/// The warning that goes with some results.
pub fn results_warning(results: &QueryResults) -> (w: Option<&'static str>)
    ensures
        w is Some <==> results.volumes_incomplete,
        w matches Some(t) ==> t@ == INCOMPLETE_TEXT@,
{
    if results.volumes_incomplete {
        Some(INCOMPLETE_TEXT)
    } else {
        None
    }
}

/// The paths of some items, one per line.
pub open spec fn list_bytes(items: Seq<ResultItem>) -> Seq<u8>
    decreases items.len(),
{
    if items.len() == 0 {
        seq![]
    } else {
        list_bytes(items.drop_last()) + encode_utf8(items.last().path@) + seq![0x0Au8]
    }
}

/// The paths of the results, one per line.
pub fn render_list(results: &QueryResults) -> (out: Vec<u8>)
    ensures
        out@ == list_bytes(results.items@),
{
    let items = &results.items;
    let mut out: Vec<u8> = Vec::new();
    let mut i: usize = 0;
    assert(items@.subrange(0, 0) =~= Seq::<ResultItem>::empty());
    while i < items.len()
        invariant
            i <= items@.len(),
            out@ == list_bytes(items@.subrange(0, i as int)),
        decreases items@.len() - i,
    {
        let ghost front = items@.subrange(0, i + 1);
        assert(front.drop_last() =~= items@.subrange(0, i as int));
        out.extend_from_slice(items[i].path.as_str().as_bytes());
        out.push(0x0A);
        i = i + 1;
        assert(out@ =~= list_bytes(front));
    }
    assert(items@.subrange(0, i as int) =~= items@);
    out
}

/// A row shows an item and its date.
pub open spec fn shows(row: CsvRow, item: ResultItem, date: Option<String>) -> bool {
    &&& row.path@ == item.path@
    &&& row.size == item.size
    &&& row.is_dir == item.is_dir
    &&& (row.mtime is Some <==> date is Some)
    &&& row.mtime matches Some(m) ==> m@ == date->Some_0@
}

/// Rows show some items and their dates.
pub open spec fn all_shown(
    rows: Seq<CsvRow>,
    items: Seq<ResultItem>,
    dates: Seq<Option<String>>,
) -> bool {
    &&& rows.len() == items.len()
    &&& dates.len() == items.len()
    &&& forall|k: int| 0 <= k < rows.len() ==> shows(#[trigger] rows[k], items[k], dates[k])
}

/// A document has the columns and the marks that a plan asks for, and the rows.
pub open spec fn document(plan: EsPlan, rows: Seq<CsvRow>, bytes: Seq<u8>) -> bool {
    exists|opts: CsvOptions|
        #![trigger csv::front_bytes(opts)]
        {
            &&& opts.bom == plan.bom
            &&& opts.header == plan.header
            &&& opts.double_quote == plan.double_quote
            &&& opts.columns@ == plan.columns@
            &&& bytes == csv::front_bytes(opts) + csv::rows_bytes(
                opts.columns@,
                opts.double_quote,
                rows,
            )
        }
}

/// Whether dates are printed.
pub fn wants_dates(plan: &EsPlan) -> (r: bool)
    ensures
        r == plan.columns@.contains(EsColumn::DateModified),
{
    let columns = &plan.columns;
    let mut i: usize = 0;
    while i < columns.len()
        invariant
            i <= columns@.len(),
            columns@ == plan.columns@,
            forall|k: int| 0 <= k < i ==> columns@[k] != EsColumn::DateModified,
        decreases columns@.len() - i,
    {
        if columns[i] == EsColumn::DateModified {
            assert(columns@[i as int] == EsColumn::DateModified);
            return true;
        }
        i = i + 1;
    }
    false
}

/// The results as a CSV document, given the date of each item as it is to be
/// printed.
pub fn render_rows(plan: &EsPlan, results: &QueryResults, dates: &Vec<Option<String>>) -> (out: Vec<
    u8,
>)
    requires
        dates@.len() == results.items@.len(),
    ensures
        exists|rows: Seq<CsvRow>|
            all_shown(rows, results.items@, dates@) && #[trigger] document(*plan, rows, out@),
{
    let mut columns: Vec<EsColumn> = Vec::new();
    let mut c: usize = 0;
    while c < plan.columns.len()
        invariant
            c <= plan.columns@.len(),
            columns@ == plan.columns@.subrange(0, c as int),
        decreases plan.columns@.len() - c,
    {
        columns.push(plan.columns[c]);
        c = c + 1;
        assert(columns@ =~= plan.columns@.subrange(0, c as int));
    }
    assert(columns@ =~= plan.columns@);
    let opts = CsvOptions {
        bom: plan.bom,
        header: plan.header,
        double_quote: plan.double_quote,
        columns,
    };
    let items = &results.items;
    let mut rows: Vec<CsvRow> = Vec::new();
    let mut i: usize = 0;
    while i < items.len()
        invariant
            i <= items@.len(),
            dates@.len() == items@.len(),
            rows@.len() == i,
            forall|k: int| 0 <= k < i ==> shows(#[trigger] rows@[k], items@[k], dates@[k]),
        decreases items@.len() - i,
    {
        let item = &items[i];
        let mtime = match &dates[i] {
            Some(d) => Some(d.as_str()),
            None => None,
        };
        let row = CsvRow { path: item.path.as_str(), size: item.size, mtime, is_dir: item.is_dir };
        assert(shows(row, items@[i as int], dates@[i as int]));
        rows.push(row);
        i = i + 1;
    }
    let mut out: Vec<u8> = Vec::new();
    write_csv(&opts, rows.as_slice(), &mut out);
    assert(out@ =~= csv::front_bytes(opts) + csv::rows_bytes(
        opts.columns@,
        opts.double_quote,
        rows@,
    ));
    assert(document(*plan, rows@, out@));
    assert(all_shown(rows@, items@, dates@));
    out
}

/// A point in time.
#[verifier::external_type_specification]
#[verifier::external_body]
pub struct ExTimestamp(Timestamp);

/// A point in time, in a time zone.
#[verifier::external_type_specification]
#[verifier::external_body]
pub struct ExZoned(Zoned);

/// A time zone.
#[verifier::external_type_specification]
#[verifier::external_body]
pub struct ExTimeZone(TimeZone);

/// The first and the last millisecond that can be printed: the years from
/// -9999 to 9999, whatever the time zone.
pub const FIRST_MS: i64 = -377_705_023_201_000;

pub const LAST_MS: i64 = 253_402_207_200_000;

/// The point in time of a millisecond.
pub uninterp spec fn instant(ms: i64) -> Timestamp;

/// A point in time, in a time zone, by the rules of the zone.
pub uninterp spec fn local(t: Timestamp, zone: TimeZone) -> Zoned;

/// A local point in time as text, by a format.
pub uninterp spec fn printed(z: Zoned, format: Seq<char>) -> Seq<char>;

/// `Timestamp::from_millisecond`: the point in time, if it lies in the range
/// that can be printed.
#[verifier::external_body]
fn timestamp(ms: i64) -> (t: Option<Timestamp>)
    ensures
        t is Some <==> FIRST_MS <= ms <= LAST_MS,
        t matches Some(x) ==> x == instant(ms),
{
    Timestamp::from_millisecond(ms).ok()
}

/// `Timestamp::to_zoned`: the same point in time in a time zone. It does not
/// fail.
#[verifier::external_body]
fn in_zone(t: Timestamp, zone: &TimeZone) -> (z: Zoned)
    ensures
        z == local(t, *zone),
{
    t.to_zoned(zone.clone())
}

/// The year, month, day, hour, minute and second.
pub const DATE_FORMAT: &'static str = "%Y-%m-%dT%H:%M:%S";

/// A digit.
pub open spec fn is_digit(c: char) -> bool {
    0x30 <= c as u32 <= 0x39
}

/// The text is a year of at least four characters, and behind it month, day,
/// hour, minute and second of two digits each, with their separators.
pub open spec fn date_form(s: Seq<char>) -> bool {
    let rest = s.subrange(s.len() - 15, s.len() as int);
    &&& 19 <= s.len() <= 20
    &&& rest[0] == '-' && rest[3] == '-' && rest[6] == 'T' && rest[9] == ':' && rest[12] == ':'
    &&& is_digit(rest[1]) && is_digit(rest[2])
    &&& is_digit(rest[4]) && is_digit(rest[5])
    &&& is_digit(rest[7]) && is_digit(rest[8])
    &&& is_digit(rest[10]) && is_digit(rest[11])
    &&& is_digit(rest[13]) && is_digit(rest[14])
}

/// `Zoned::strftime`: the point in time as text. With the format of dates it
/// does not fail, and the text has their form: the year takes four characters,
/// or five below the year -999, and everything else two digits.
#[verifier::external_body]
fn zoned_text(z: &Zoned, format: &str) -> (s: String)
    requires
        format@ == DATE_FORMAT@,
    ensures
        s@ == printed(*z, format@),
        date_form(s@),
{
    z.strftime(format).to_string()
}

/// The text is that of FILETIME ticks in a time zone; it is empty where the
/// time cannot be printed.
pub open spec fn is_local_date(s: Seq<char>, filetime: i64, zone: TimeZone) -> bool {
    let ms = filetime::ms_of_ticks(filetime as int);
    if FIRST_MS <= ms <= LAST_MS {
        s == printed(local(instant(ms as i64), zone), DATE_FORMAT@) && date_form(s)
    } else {
        s == ""@
    }
}

/// FILETIME ticks as local time, `YYYY-MM-DDTHH:MM:SS`; empty where the time
/// cannot be printed.
pub fn format_date_local(filetime: i64, zone: &TimeZone) -> (s: String)
    ensures
        is_local_date(s@, filetime, *zone),
{
    let ms = filetime::filetime_to_unix_ms(filetime);
    match timestamp(ms) {
        Some(t) => zoned_text(&in_zone(t, zone), DATE_FORMAT),
        None => String::from_str(""),
    }
}

/// The date of an item: there is one where the time is known and there is a
/// zone.
pub open spec fn is_date(date: Option<String>, time: Option<i64>, zone: Option<TimeZone>) -> bool {
    &&& date is Some <==> zone is Some && time is Some
    &&& date matches Some(d) ==> is_local_date(d@, time->Some_0, zone->Some_0)
}

/// The dates of some items.
pub open spec fn dated(
    dates: Seq<Option<String>>,
    items: Seq<ResultItem>,
    zone: Option<TimeZone>,
) -> bool {
    &&& dates.len() == items.len()
    &&& forall|k: int|
        0 <= k < dates.len() ==> is_date(#[trigger] dates[k], items[k].mtime_ft, zone)
}

/// The results as a CSV document. `zone` is the time zone for dates, where
/// dates are printed.
pub fn render_csv(plan: &EsPlan, results: &QueryResults, zone: &Option<TimeZone>) -> (out: Vec<u8>)
    ensures
        exists|dates: Seq<Option<String>>, rows: Seq<CsvRow>|
            dated(dates, results.items@, *zone) && #[trigger] all_shown(rows, results.items@, dates)
                && #[trigger] document(*plan, rows, out@),
{
    let items = &results.items;
    let mut dates: Vec<Option<String>> = Vec::new();
    let mut i: usize = 0;
    while i < items.len()
        invariant
            i <= items@.len(),
            dates@.len() == i,
            forall|k: int|
                0 <= k < i ==> is_date(#[trigger] dates@[k], items@[k].mtime_ft, *zone),
        decreases items@.len() - i,
    {
        let date = match (zone, items[i].mtime_ft) {
            (Some(z), Some(ft)) => Some(format_date_local(ft, z)),
            _ => None,
        };
        assert(is_date(date, items@[i as int].mtime_ft, *zone));
        dates.push(date);
        i = i + 1;
    }
    let out = render_rows(plan, results, &dates);
    assert(dated(dates@, items@, *zone));
    out
}

/// A row has the path, the size and the kind of its result and the date that
/// goes with it, result by result.
pub proof fn law_rows_are_the_results(
    rows: Seq<CsvRow>,
    items: Seq<ResultItem>,
    dates: Seq<Option<String>>,
    zone: Option<TimeZone>,
    k: int,
)
    requires
        all_shown(rows, items, dates),
        dated(dates, items, zone),
        0 <= k < items.len(),
    ensures
        rows.len() == items.len(),
        rows[k].path@ == items[k].path@,
        rows[k].size == items[k].size,
        rows[k].is_dir == items[k].is_dir,
        rows[k].mtime is Some <==> items[k].mtime_ft is Some && zone is Some,
        rows[k].mtime matches Some(m) ==> is_local_date(m@, items[k].mtime_ft->Some_0, zone->0),
{
    assert(shows(rows[k], items[k], dates[k]));
    assert(is_date(dates[k], items[k].mtime_ft, zone));
}

/// A date is that of the millisecond of its ticks, where it can be printed, and
/// nothing otherwise.
pub proof fn law_dates_are_those_of_the_ticks(s: Seq<char>, ticks: i64, zone: TimeZone)
    requires
        is_local_date(s, ticks, zone),
    ensures
        ({
            let ms = filetime::clamped(ticks - 116_444_736_000_000_000) / 10_000;
            &&& -377_705_023_201_000 <= ms <= 253_402_207_200_000 ==> s == printed(
                local(instant(ms as i64), zone),
                "%Y-%m-%dT%H:%M:%S"@,
            )
            &&& !(-377_705_023_201_000 <= ms <= 253_402_207_200_000) ==> s.len() == 0
        }),
{
    reveal_strlit("");
}

/// A document has what the plan asks for: the byte order mark, the header, the
/// quotes and the columns.
pub proof fn law_documents_follow_the_plan(plan: EsPlan, rows: Seq<CsvRow>, bytes: Seq<u8>)
    requires
        document(plan, rows, bytes),
    ensures
        bytes == (if plan.bom {
            seq![0xEFu8, 0xBBu8, 0xBFu8]
        } else {
            Seq::empty()
        }) + (if plan.header {
            csv::header_cells(plan.columns@) + encode_utf8("Filename\r\n"@)
        } else {
            Seq::empty()
        }) + csv::rows_bytes(plan.columns@, plan.double_quote, rows),
{
    let opts = choose|opts: CsvOptions|
        #![trigger csv::front_bytes(opts)]
        {
            &&& opts.bom == plan.bom
            &&& opts.header == plan.header
            &&& opts.double_quote == plan.double_quote
            &&& opts.columns@ == plan.columns@
            &&& bytes == csv::front_bytes(opts) + csv::rows_bytes(
                opts.columns@,
                opts.double_quote,
                rows,
            )
        };
    csv::law_front_has_mark_and_header(opts, opts.columns@, EsColumn::Size);
}

} // verus!
