//! CSV in the style of es.exe.
//!
//! The header names the columns, unquoted. Every row ends in CR LF. Columns
//! come in flag order and the file name last. Sizes and dates are never
//! quoted; a size is empty for directories and where it is unknown. The file
//! name is always quoted, or only where it must be.

use crate::numbers;
use crate::text;
use crate::types::EsColumn;
use vstd::prelude::*;
use vstd::utf8::*;

verus! {

/// Options of the CSV output.
#[derive(Clone, Debug)]
pub struct CsvOptions {
    /// Write the UTF-8 byte order mark first.
    pub bom: bool,
    /// Write the header row.
    pub header: bool,
    /// Always quote the file name; otherwise only where it holds a comma, a
    /// quote, CR or LF.
    pub double_quote: bool,
    /// Optional columns in flag order.
    pub columns: Vec<EsColumn>,
}

impl Default for CsvOptions {
    fn default() -> (o: CsvOptions)
        ensures
            o.bom,
            o.header,
            o.double_quote,
            o.columns@.len() == 0,
    {
        CsvOptions { bom: true, header: true, double_quote: true, columns: Vec::new() }
    }
}

/// One row.
#[derive(Clone, Debug)]
pub struct CsvRow<'a> {
    /// The full path, without a trailing backslash.
    pub path: &'a str,
    pub size: Option<u64>,
    /// The date as it is to be printed.
    pub mtime: Option<&'a str>,
    pub is_dir: bool,
}

/// The name of a column in the header.
pub open spec fn column_name(col: EsColumn) -> Seq<char> {
    match col {
        EsColumn::Size => "Size"@,
        EsColumn::DateModified => "Date Modified"@,
    }
}

/// The names of columns, each followed by a comma.
pub open spec fn header_cells(cols: Seq<EsColumn>) -> Seq<u8>
    decreases cols.len(),
{
    if cols.len() == 0 {
        seq![]
    } else {
        header_cells(cols.drop_last()) + encode_utf8(column_name(cols.last())) + seq![0x2Cu8]
    }
}

/// What a row shows in a column.
pub open spec fn cell(col: EsColumn, row: CsvRow) -> Seq<u8> {
    match col {
        EsColumn::Size => if !row.is_dir && row.size is Some {
            encode_utf8(text::decimal(row.size->Some_0 as nat))
        } else {
            seq![]
        },
        EsColumn::DateModified => match row.mtime {
            Some(m) => encode_utf8(m@),
            None => seq![],
        },
    }
}

/// What a row shows in columns, each followed by a comma.
pub open spec fn row_cells(cols: Seq<EsColumn>, row: CsvRow) -> Seq<u8>
    decreases cols.len(),
{
    if cols.len() == 0 {
        seq![]
    } else {
        row_cells(cols.drop_last(), row) + cell(cols.last(), row) + seq![0x2Cu8]
    }
}

/// A field that cannot stand without quotes.
pub open spec fn must_quote(field: Seq<u8>) -> bool {
    exists|k: int|
        0 <= k < field.len() && (#[trigger] field[k] == 0x2C || field[k] == 0x22 || field[k] == 0x0D
            || field[k] == 0x0A)
}

/// The bytes with each quote doubled.
pub open spec fn doubled(field: Seq<u8>) -> Seq<u8>
    decreases field.len(),
{
    if field.len() == 0 {
        seq![]
    } else if field.last() == 0x22 {
        doubled(field.drop_last()).push(0x22).push(0x22)
    } else {
        doubled(field.drop_last()).push(field.last())
    }
}

/// A quoted field.
pub open spec fn quoted(field: Seq<u8>) -> Seq<u8> {
    seq![0x22u8] + doubled(field) + seq![0x22u8]
}

/// The file name of a row.
pub open spec fn name_cell(double_quote: bool, row: CsvRow) -> Seq<u8> {
    let path = encode_utf8(row.path@);
    if double_quote || must_quote(path) {
        quoted(path)
    } else {
        path
    }
}

/// A row with its end of line.
pub open spec fn row_bytes(cols: Seq<EsColumn>, double_quote: bool, row: CsvRow) -> Seq<u8> {
    row_cells(cols, row) + name_cell(double_quote, row) + seq![0x0Du8, 0x0Au8]
}

/// Some rows.
pub open spec fn rows_bytes(cols: Seq<EsColumn>, double_quote: bool, rows: Seq<CsvRow>) -> Seq<u8>
    decreases rows.len(),
{
    if rows.len() == 0 {
        seq![]
    } else {
        rows_bytes(cols, double_quote, rows.drop_last()) + row_bytes(
            cols,
            double_quote,
            rows.last(),
        )
    }
}

/// What comes before the rows.
pub open spec fn front_bytes(opts: CsvOptions) -> Seq<u8> {
    let bom = if opts.bom {
        seq![0xEFu8, 0xBBu8, 0xBFu8]
    } else {
        seq![]
    };
    let header = if opts.header {
        header_cells(opts.columns@) + encode_utf8("Filename\r\n"@)
    } else {
        seq![]
    };
    bom + header
}

fn push_bytes(out: &mut Vec<u8>, bytes: &[u8])
    ensures
        final(out)@ == old(out)@ + bytes@,
{
    out.extend_from_slice(bytes);
    assert(out@ =~= old(out)@ + bytes@);
}

fn column_display_name(col: EsColumn) -> (s: &'static str)
    ensures
        s@ == column_name(col),
{
    match col {
        EsColumn::Size => "Size",
        EsColumn::DateModified => "Date Modified",
    }
}

fn write_front(opts: &CsvOptions, out: &mut Vec<u8>)
    ensures
        final(out)@ == old(out)@ + front_bytes(*opts),
{
    if opts.bom {
        out.push(0xEF);
        out.push(0xBB);
        out.push(0xBF);
    }
    if opts.header {
        let ghost start = out@;
        let cols = &opts.columns;
        let mut i: usize = 0;
        assert(cols@.subrange(0, 0) =~= Seq::<EsColumn>::empty());
        assert(start + header_cells(cols@.subrange(0, 0)) =~= start);
        while i < cols.len()
            invariant
                i <= cols@.len(),
                out@ == start + header_cells(cols@.subrange(0, i as int)),
            decreases cols@.len() - i,
        {
            let ghost front = cols@.subrange(0, i + 1);
            assert(front.drop_last() =~= cols@.subrange(0, i as int));
            push_bytes(out, column_display_name(cols[i]).as_bytes());
            out.push(0x2C);
            i = i + 1;
            assert(out@ =~= start + header_cells(front));
        }
        assert(cols@.subrange(0, i as int) =~= cols@);
        push_bytes(out, "Filename\r\n".as_bytes());
    }
    assert(out@ =~= old(out)@ + front_bytes(*opts));
}

fn write_cell(col: EsColumn, row: &CsvRow, out: &mut Vec<u8>)
    ensures
        final(out)@ == old(out)@ + cell(col, *row),
{
    match col {
        EsColumn::Size => {
            if !row.is_dir {
                if let Some(size) = row.size {
                    let mut digits = String::new();
                    text::push_decimal(&mut digits, size);
                    assert(digits@ =~= text::decimal(size as nat));
                    push_bytes(out, digits.as_str().as_bytes());
                }
            }
        },
        EsColumn::DateModified => {
            if let Some(mtime) = row.mtime {
                push_bytes(out, mtime.as_bytes());
            }
        },
    }
    assert(out@ =~= old(out)@ + cell(col, *row));
}

fn needs_quoting(field: &[u8]) -> (r: bool)
    ensures
        r == must_quote(field@),
{
    let mut i: usize = 0;
    while i < field.len()
        invariant
            i <= field@.len(),
            forall|k: int|
                0 <= k < i ==> field@[k] != 0x2C && field@[k] != 0x22 && field@[k] != 0x0D
                    && field@[k] != 0x0A,
        decreases field@.len() - i,
    {
        let b = field[i];
        if b == 0x2C || b == 0x22 || b == 0x0D || b == 0x0A {
            return true;
        }
        i = i + 1;
    }
    false
}

fn write_quoted(field: &[u8], out: &mut Vec<u8>)
    ensures
        final(out)@ == old(out)@ + quoted(field@),
{
    out.push(0x22);
    let ghost start = out@;
    let mut i: usize = 0;
    assert(field@.subrange(0, 0) =~= Seq::<u8>::empty());
    assert(start + doubled(field@.subrange(0, 0)) =~= start);
    while i < field.len()
        invariant
            i <= field@.len(),
            out@ == start + doubled(field@.subrange(0, i as int)),
        decreases field@.len() - i,
    {
        let ghost front = field@.subrange(0, i + 1);
        assert(front.drop_last() =~= field@.subrange(0, i as int));
        let b = field[i];
        if b == 0x22 {
            out.push(0x22);
        }
        out.push(b);
        i = i + 1;
        assert(out@ =~= start + doubled(front));
    }
    assert(field@.subrange(0, i as int) =~= field@);
    out.push(0x22);
    assert(out@ =~= old(out)@ + quoted(field@));
}

fn write_row(opts: &CsvOptions, row: &CsvRow, out: &mut Vec<u8>)
    ensures
        final(out)@ == old(out)@ + row_bytes(opts.columns@, opts.double_quote, *row),
{
    let ghost start = out@;
    let cols = &opts.columns;
    let mut i: usize = 0;
    assert(cols@.subrange(0, 0) =~= Seq::<EsColumn>::empty());
    assert(start + row_cells(cols@.subrange(0, 0), *row) =~= start);
    while i < cols.len()
        invariant
            i <= cols@.len(),
            out@ == start + row_cells(cols@.subrange(0, i as int), *row),
        decreases cols@.len() - i,
    {
        let ghost front = cols@.subrange(0, i + 1);
        assert(front.drop_last() =~= cols@.subrange(0, i as int));
        write_cell(cols[i], row, out);
        out.push(0x2C);
        i = i + 1;
        assert(out@ =~= start + row_cells(front, *row));
    }
    assert(cols@.subrange(0, i as int) =~= cols@);
    let path = row.path.as_bytes();
    if opts.double_quote || needs_quoting(path) {
        write_quoted(path, out);
    } else {
        push_bytes(out, path);
    }
    out.push(0x0D);
    out.push(0x0A);
    assert(out@ =~= old(out)@ + row_bytes(opts.columns@, opts.double_quote, *row));
}

/// Writes a whole document.
pub fn write_csv(opts: &CsvOptions, rows: &[CsvRow], out: &mut Vec<u8>)
    ensures
        final(out)@ == old(out)@ + front_bytes(*opts) + rows_bytes(
            opts.columns@,
            opts.double_quote,
            rows@,
        ),
{
    write_front(opts, out);
    let ghost start = out@;
    let mut i: usize = 0;
    assert(rows@.subrange(0, 0) =~= Seq::<CsvRow>::empty());
    assert(start + rows_bytes(opts.columns@, opts.double_quote, rows@.subrange(0, 0)) =~= start);
    while i < rows.len()
        invariant
            i <= rows@.len(),
            out@ == start + rows_bytes(
                opts.columns@,
                opts.double_quote,
                rows@.subrange(0, i as int),
            ),
        decreases rows@.len() - i,
    {
        let ghost front = rows@.subrange(0, i + 1);
        assert(front.drop_last() =~= rows@.subrange(0, i as int));
        write_row(opts, &rows[i], out);
        i = i + 1;
        assert(out@ =~= start + rows_bytes(opts.columns@, opts.double_quote, front));
    }
    assert(rows@.subrange(0, i as int) =~= rows@);
}

/// What a reader makes of the inside of a quoted field: two quotes are one,
/// and a quote by itself ends the field.
pub open spec fn read_inside(s: Seq<u8>) -> (Seq<u8>, Seq<u8>)
    decreases s.len(),
{
    if s.len() == 0 {
        (seq![], seq![])
    } else if s[0] == 0x22 {
        if s.len() > 1 && s[1] == 0x22 {
            let (field, rest) = read_inside(s.subrange(2, s.len() as int));
            (seq![0x22u8] + field, rest)
        } else {
            (seq![], s.subrange(1, s.len() as int))
        }
    } else {
        let (field, rest) = read_inside(s.subrange(1, s.len() as int));
        (seq![s[0]] + field, rest)
    }
}

proof fn lemma_doubled_front(field: Seq<u8>)
    requires
        field.len() > 0,
    ensures
        doubled(field) == (if field[0] == 0x22 {
            seq![0x22u8, 0x22u8]
        } else {
            seq![field[0]]
        }) + doubled(field.drop_first()),
    decreases field.len(),
{
    let head = if field[0] == 0x22 {
        seq![0x22u8, 0x22u8]
    } else {
        seq![field[0]]
    };
    if field.len() == 1 {
        assert(field.drop_last() =~= Seq::<u8>::empty());
        assert(field.drop_first() =~= Seq::<u8>::empty());
        assert(doubled(Seq::<u8>::empty()) =~= Seq::<u8>::empty());
        assert(doubled(field) =~= head + doubled(field.drop_first()));
    } else {
        lemma_doubled_front(field.drop_last());
        assert(field.drop_last().drop_first() =~= field.drop_first().drop_last());
        assert(field.drop_first().last() == field.last());
        assert(doubled(field) =~= head + doubled(field.drop_first()));
    }
}

/// A quoted file name is read back as it is, whatever it holds, and the
/// reader goes on behind it.
pub proof fn law_quoted_field_reads_back(field: Seq<u8>, rest: Seq<u8>)
    requires
        rest.len() == 0 || rest[0] != 0x22,
    ensures
        quoted(field)[0] == 0x22,
        read_inside((quoted(field) + rest).drop_first()) == (field, rest),
    decreases field.len(),
{
    let inside = doubled(field) + seq![0x22u8] + rest;
    assert((quoted(field) + rest).drop_first() =~= inside);
    lemma_inside(field, rest);
}

proof fn lemma_inside(field: Seq<u8>, rest: Seq<u8>)
    requires
        rest.len() == 0 || rest[0] != 0x22,
    ensures
        read_inside(doubled(field) + seq![0x22u8] + rest) == (field, rest),
    decreases field.len(),
{
    let s = doubled(field) + seq![0x22u8] + rest;
    if field.len() == 0 {
        assert(s =~= seq![0x22u8] + rest);
        assert(s.subrange(1, s.len() as int) =~= rest);
        assert(field =~= Seq::<u8>::empty());
    } else {
        lemma_doubled_front(field);
        lemma_inside(field.drop_first(), rest);
        let tail = doubled(field.drop_first()) + seq![0x22u8] + rest;
        if field[0] == 0x22 {
            assert(s.subrange(2, s.len() as int) =~= tail);
        } else {
            assert(s.subrange(1, s.len() as int) =~= tail);
        }
        assert(seq![field[0]] + field.drop_first() =~= field);
    }
}

/// A file name without comma, quote, CR and LF is written as it is, with or
/// without the quotes around it.
pub proof fn law_plain_name_is_written_as_is(row: CsvRow)
    requires
        !must_quote(encode_utf8(row.path@)),
    ensures
        name_cell(false, row) == encode_utf8(row.path@),
        name_cell(true, row) == seq![0x22u8] + encode_utf8(row.path@) + seq![0x22u8],
{
    lemma_nothing_doubled(encode_utf8(row.path@));
}

proof fn lemma_nothing_doubled(field: Seq<u8>)
    requires
        !must_quote(field),
    ensures
        doubled(field) == field,
    decreases field.len(),
{
    if field.len() > 0 {
        assert(field[field.len() - 1] != 0x22);
        assert(!must_quote(field.drop_last())) by {
            if must_quote(field.drop_last()) {
                let k = choose|k: int|
                    0 <= k < field.drop_last().len() && (#[trigger] field.drop_last()[k] == 0x2C
                        || field.drop_last()[k] == 0x22 || field.drop_last()[k] == 0x0D
                        || field.drop_last()[k] == 0x0A);
                assert(field[k] == field.drop_last()[k]);
            }
        }
        lemma_nothing_doubled(field.drop_last());
        assert(doubled(field) =~= field);
    }
}

/// The size of a file reads back as the number that it is; a directory has no
/// size, and neither has a file whose size is not known. A date is written as it
/// is to be printed, for files and directories alike.
pub proof fn law_cells_show_the_row(row: CsvRow)
    ensures
        !row.is_dir && row.size is Some ==> cell(EsColumn::Size, row) == encode_utf8(
            text::decimal(row.size->Some_0 as nat),
        ) && text::number(decode_utf8(cell(EsColumn::Size, row)), u64::MAX as nat) == Some(
            row.size->Some_0 as nat,
        ),
        row.is_dir || row.size is None ==> cell(EsColumn::Size, row).len() == 0,
        row.mtime matches Some(m) ==> cell(EsColumn::DateModified, row) == encode_utf8(m@),
        row.mtime is None ==> cell(EsColumn::DateModified, row).len() == 0,
{
    if !row.is_dir && row.size is Some {
        let n = row.size->Some_0 as nat;
        numbers::law_numbers_read_back(n);
        encode_utf8_decode_utf8(text::decimal(n));
    }
}

/// A file name is quoted where it is asked for, and where it holds a comma, a
/// quote, CR or LF.
pub proof fn law_names_are_quoted(row: CsvRow, k: int)
    requires
        0 <= k < encode_utf8(row.path@).len(),
        encode_utf8(row.path@)[k] == 0x2C || encode_utf8(row.path@)[k] == 0x22 || encode_utf8(
            row.path@,
        )[k] == 0x0D || encode_utf8(row.path@)[k] == 0x0A,
    ensures
        forall|always: bool| #[trigger]
            name_cell(always, row) == seq![0x22u8] + doubled(encode_utf8(row.path@)) + seq![0x22u8],
{
    assert(must_quote(encode_utf8(row.path@)));
}

/// Rows follow one another, and a row is its cells in the order of the columns,
/// each with a comma behind it, then the file name and CR LF.
pub proof fn law_rows_go_cell_by_cell(
    cols: Seq<EsColumn>,
    col: EsColumn,
    always: bool,
    rows: Seq<CsvRow>,
    row: CsvRow,
)
    ensures
        rows_bytes(cols, always, rows.push(row)) == rows_bytes(cols, always, rows) + row_cells(
            cols,
            row,
        ) + name_cell(always, row) + seq![0x0Du8, 0x0Au8],
        row_cells(cols.push(col), row) == row_cells(cols, row) + cell(col, row) + seq![0x2Cu8],
        rows_bytes(cols, always, Seq::empty()).len() == 0,
        row_cells(Seq::empty(), row).len() == 0,
{
    assert(rows.push(row).drop_last() =~= rows);
    assert(cols.push(col).drop_last() =~= cols);
    assert(rows_bytes(cols, always, rows.push(row)) =~= rows_bytes(cols, always, rows) + row_cells(
        cols,
        row,
    ) + name_cell(always, row) + seq![0x0Du8, 0x0Au8]);
}

/// The byte order mark comes first and the header behind it, each only where
/// the options ask for it.
pub proof fn law_front_has_mark_and_header(opts: CsvOptions, cols: Seq<EsColumn>, col: EsColumn)
    ensures
        front_bytes(opts) == (if opts.bom {
            seq![0xEFu8, 0xBBu8, 0xBFu8]
        } else {
            Seq::empty()
        }) + (if opts.header {
            header_cells(opts.columns@) + encode_utf8("Filename\r\n"@)
        } else {
            Seq::empty()
        }),
        header_cells(cols.push(col)) == header_cells(cols) + encode_utf8(
            if col == EsColumn::Size {
                "Size"@
            } else {
                "Date Modified"@
            },
        ) + seq![0x2Cu8],
        header_cells(Seq::empty()).len() == 0,
{
    assert(cols.push(col).drop_last() =~= cols);
}

} // verus!
