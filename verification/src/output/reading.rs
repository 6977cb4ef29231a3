//! What a reader makes of a document.
//!
//! A record ends in CR LF, its fields are separated by commas, and a field
//! that begins with a quote goes on to the next quote that is not doubled.

use crate::output::csv;
use crate::output::csv::{CsvOptions, CsvRow};
use crate::text;
use crate::types::EsColumn;
use crate::wtf8;
use vstd::prelude::*;
use vstd::utf8::*;

verus! {

/// The bytes begin with the end of a field.
pub open spec fn at_end(s: Seq<u8>) -> bool {
    s.len() > 0 && (s[0] == 0x2C || (s[0] == 0x0D && s.len() > 1 && s[1] == 0x0A))
}

/// A field without quotes, and what follows it.
pub open spec fn read_plain(s: Seq<u8>) -> (Seq<u8>, Seq<u8>)
    decreases s.len(),
{
    if s.len() == 0 || at_end(s) {
        (seq![], s)
    } else {
        let (field, rest) = read_plain(s.drop_first());
        (seq![s[0]] + field, rest)
    }
}

/// A field, and what follows it.
pub open spec fn read_field(s: Seq<u8>) -> (Seq<u8>, Seq<u8>) {
    if s.len() > 0 && s[0] == 0x22 {
        csv::read_inside(s.drop_first())
    } else {
        read_plain(s)
    }
}

/// A record, and what follows its end of line.
pub open spec fn read_record(s: Seq<u8>) -> (Seq<Seq<u8>>, Seq<u8>)
    decreases s.len(),
{
    let (field, rest) = read_field(s);
    if 0 < rest.len() <= s.len() && rest[0] == 0x2C {
        let (fields, end) = read_record(rest.drop_first());
        (seq![field] + fields, end)
    } else if rest.len() >= 2 {
        (seq![field], rest.subrange(2, rest.len() as int))
    } else {
        (seq![field], seq![])
    }
}

/// All records.
pub open spec fn read_records(s: Seq<u8>) -> Seq<Seq<Seq<u8>>>
    decreases s.len(),
{
    if s.len() == 0 {
        seq![]
    } else {
        let (record, rest) = read_record(s);
        seq![record] + (if rest.len() < s.len() {
            read_records(rest)
        } else {
            seq![]
        })
    }
}

/// The end of a line.
pub open spec fn crlf() -> Seq<u8> {
    seq![0x0Du8, 0x0Au8]
}

/// Fields, each followed by a comma.
pub open spec fn with_commas(fields: Seq<Seq<u8>>) -> Seq<u8>
    decreases fields.len(),
{
    if fields.len() == 0 {
        seq![]
    } else {
        with_commas(fields.drop_last()) + fields.last() + seq![0x2Cu8]
    }
}

proof fn lemma_commas_front(fields: Seq<Seq<u8>>)
    requires
        fields.len() > 0,
    ensures
        with_commas(fields) == fields[0] + seq![0x2Cu8] + with_commas(fields.drop_first()),
    decreases fields.len(),
{
    if fields.len() == 1 {
        assert(fields.drop_last() =~= Seq::<Seq<u8>>::empty());
        assert(fields.drop_first() =~= Seq::<Seq<u8>>::empty());
        assert(with_commas(fields.drop_last()) =~= Seq::<u8>::empty());
        assert(with_commas(fields.drop_first()) =~= Seq::<u8>::empty());
        assert(with_commas(fields) =~= fields[0] + seq![0x2Cu8] + with_commas(fields.drop_first()));
    } else {
        let front = fields.drop_last();
        lemma_commas_front(front);
        assert(front.drop_first() =~= fields.drop_first().drop_last());
        assert(fields.drop_first().last() == fields.last());
        assert(with_commas(fields) =~= fields[0] + seq![0x2Cu8] + with_commas(fields.drop_first()));
    }
}

proof fn lemma_plain(field: Seq<u8>, rest: Seq<u8>)
    requires
        !csv::must_quote(field),
        at_end(rest),
    ensures
        read_plain(field + rest) == (field, rest),
        (field + rest)[0] != 0x22,
    decreases field.len(),
{
    let s = field + rest;
    if field.len() == 0 {
        assert(s =~= rest);
        assert(field =~= Seq::<u8>::empty());
    } else {
        let tail = field.drop_first();
        assert(field[0] != 0x2C && field[0] != 0x22 && field[0] != 0x0D);
        assert(!csv::must_quote(tail)) by {
            assert forall|k: int| 0 <= k < tail.len() implies #[trigger] tail[k] != 0x2C && tail[k]
                != 0x22 && tail[k] != 0x0D && tail[k] != 0x0A by {
                assert(field[k + 1] == tail[k]);
            }
        }
        lemma_plain(tail, rest);
        assert(s.drop_first() =~= tail + rest);
        assert(seq![field[0]] + tail =~= field);
    }
}

/// The last field of a record stands in quotes, or needs none.
pub open spec fn last_cell(cell: Seq<u8>, value: Seq<u8>) -> bool {
    cell == csv::quoted(value) || (cell == value && !csv::must_quote(value))
}

proof fn lemma_record(fields: Seq<Seq<u8>>, cell: Seq<u8>, value: Seq<u8>, rest: Seq<u8>)
    requires
        forall|k: int| 0 <= k < fields.len() ==> !csv::must_quote(#[trigger] fields[k]),
        last_cell(cell, value),
    ensures
        read_record(with_commas(fields) + cell + crlf() + rest) == (fields.push(value), rest),
    decreases fields.len(),
{
    let s = with_commas(fields) + cell + crlf() + rest;
    let behind = crlf() + rest;
    if fields.len() == 0 {
        assert(s =~= cell + behind);
        assert(read_field(s) == (value, behind)) by {
            if cell == csv::quoted(value) {
                csv::law_quoted_field_reads_back(value, behind);
            } else {
                lemma_plain(value, behind);
            }
        }
        assert(behind[0] == 0x0D);
        assert(behind.subrange(2, behind.len() as int) =~= rest);
        assert(fields.push(value) =~= seq![value]);
    } else {
        let more = fields.drop_first();
        let next = with_commas(more) + cell + crlf() + rest;
        lemma_commas_front(fields);
        assert(s =~= fields[0] + (seq![0x2Cu8] + next));
        assert(!csv::must_quote(fields[0]));
        lemma_plain(fields[0], seq![0x2Cu8] + next);
        assert((seq![0x2Cu8] + next).drop_first() =~= next);
        assert forall|k: int| 0 <= k < more.len() implies !csv::must_quote(#[trigger] more[k]) by {
            assert(more[k] == fields[k + 1]);
        }
        lemma_record(more, cell, value, rest);
        assert(seq![fields[0]] + more.push(value) =~= fields.push(value));
    }
}

/// A character that needs no quotes.
spec fn harmless(c: char) -> bool {
    (c as u32) < 0x80 && c as u32 != 0x2C && c as u32 != 0x22 && c as u32 != 0x0D && c as u32
        != 0x0A
}

proof fn lemma_one_byte_each(cps: Seq<u32>)
    requires
        forall|k: int| 0 <= k < cps.len() ==> #[trigger] cps[k] < 0x80,
    ensures
        wtf8::cps_bytes(cps).len() == cps.len(),
        forall|k: int| 0 <= k < cps.len() ==> #[trigger] wtf8::cps_bytes(cps)[k] == cps[k] as u8,
    decreases cps.len(),
{
    if cps.len() > 0 {
        let tail = cps.subrange(1, cps.len() as int);
        lemma_one_byte_each(tail);
        assert forall|k: int| 0 <= k < cps.len() implies #[trigger] wtf8::cps_bytes(cps)[k]
            == cps[k] as u8 by {
            if k > 0 {
                assert(wtf8::cps_bytes(tail)[k - 1] == tail[k - 1] as u8);
            }
        }
    }
}

proof fn lemma_harmless(chars: Seq<char>)
    requires
        forall|k: int| 0 <= k < chars.len() ==> harmless(#[trigger] chars[k]),
    ensures
        !csv::must_quote(encode_utf8(chars)),
{
    text::lemma_text_bytes(chars);
    let cps = text::char_points(chars);
    assert forall|k: int| 0 <= k < cps.len() implies #[trigger] cps[k] < 0x80 by {
        assert(harmless(chars[k]));
    }
    lemma_one_byte_each(cps);
    assert forall|k: int| 0 <= k < encode_utf8(chars).len() implies #[trigger] encode_utf8(chars)[k]
        != 0x2C && encode_utf8(chars)[k] != 0x22 && encode_utf8(chars)[k] != 0x0D && encode_utf8(
        chars,
    )[k] != 0x0A by {
        assert(harmless(chars[k]));
        assert(wtf8::cps_bytes(cps)[k] == cps[k] as u8);
    }
}

proof fn lemma_digits(n: nat)
    ensures
        forall|k: int| 0 <= k < text::decimal(n).len() ==> harmless(#[trigger] text::decimal(n)[k]),
    decreases n,
{
    if n >= 10 {
        lemma_digits(n / 10);
        let front = text::decimal(n / 10);
        assert forall|k: int| 0 <= k < text::decimal(n).len() implies harmless(
            #[trigger] text::decimal(n)[k],
        ) by {
            if k < front.len() {
                assert(text::decimal(n)[k] == front[k]);
            }
        }
    }
}

/// What a row shows in columns.
pub open spec fn cells(cols: Seq<EsColumn>, row: CsvRow) -> Seq<Seq<u8>> {
    Seq::new(cols.len(), |k: int| csv::cell(cols[k], row))
}

/// The fields of a row: its columns, and the file name.
pub open spec fn fields_of(cols: Seq<EsColumn>, row: CsvRow) -> Seq<Seq<u8>> {
    cells(cols, row).push(encode_utf8(row.path@))
}

/// The fields of the header: the names of the columns, and that of the file
/// name.
pub open spec fn header_fields(cols: Seq<EsColumn>) -> Seq<Seq<u8>> {
    Seq::new(cols.len(), |k: int| encode_utf8(csv::column_name(cols[k]))).push(
        encode_utf8("Filename"@),
    )
}

/// The date of a row can stand without quotes.
pub open spec fn plain_date(row: CsvRow) -> bool {
    row.mtime matches Some(m) ==> !csv::must_quote(encode_utf8(m@))
}

proof fn lemma_cells(cols: Seq<EsColumn>, row: CsvRow)
    requires
        plain_date(row),
    ensures
        csv::row_cells(cols, row) == with_commas(cells(cols, row)),
        forall|k: int| 0 <= k < cols.len() ==> !csv::must_quote(#[trigger] cells(cols, row)[k]),
    decreases cols.len(),
{
    if cols.len() > 0 {
        lemma_cells(cols.drop_last(), row);
        assert(cells(cols, row).drop_last() =~= cells(cols.drop_last(), row));
    }
    assert forall|k: int| 0 <= k < cols.len() implies !csv::must_quote(
        #[trigger] cells(cols, row)[k],
    ) by {
        if cols[k] == EsColumn::Size && !row.is_dir && row.size is Some {
            lemma_digits(row.size->Some_0 as nat);
            lemma_harmless(text::decimal(row.size->Some_0 as nat));
        }
    }
}

proof fn lemma_names(cols: Seq<EsColumn>)
    ensures
        csv::header_cells(cols) == with_commas(header_fields(cols).drop_last()),
        forall|k: int|
            0 <= k < cols.len() ==> !csv::must_quote(#[trigger] header_fields(cols).drop_last()[k]),
    decreases cols.len(),
{
    let names = header_fields(cols).drop_last();
    if cols.len() > 0 {
        lemma_names(cols.drop_last());
        assert(names.drop_last() =~= header_fields(cols.drop_last()).drop_last());
    }
    assert forall|k: int| 0 <= k < cols.len() implies !csv::must_quote(#[trigger] names[k]) by {
        reveal_strlit("Size");
        reveal_strlit("Date Modified");
        lemma_harmless(csv::column_name(cols[k]));
    }
}

proof fn lemma_filename()
    ensures
        encode_utf8("Filename\r\n"@) == encode_utf8("Filename"@) + crlf(),
        !csv::must_quote(encode_utf8("Filename"@)),
{
    reveal_strlit("Filename");
    reveal_strlit("Filename\r\n");
    lemma_harmless("Filename"@);
    let long = "Filename\r\n"@;
    let short = "Filename"@;
    text::lemma_text_bytes(long);
    text::lemma_text_bytes(short);
    lemma_one_byte_each(text::char_points(long));
    lemma_one_byte_each(text::char_points(short));
    assert(encode_utf8(long) =~= encode_utf8(short) + crlf());
}

proof fn lemma_rows_front(cols: Seq<EsColumn>, double_quote: bool, rows: Seq<CsvRow>)
    requires
        rows.len() > 0,
    ensures
        csv::rows_bytes(cols, double_quote, rows) == csv::row_bytes(cols, double_quote, rows[0])
            + csv::rows_bytes(cols, double_quote, rows.drop_first()),
    decreases rows.len(),
{
    if rows.len() == 1 {
        assert(rows.drop_last() =~= Seq::<CsvRow>::empty());
        assert(rows.drop_first() =~= Seq::<CsvRow>::empty());
        assert(csv::rows_bytes(cols, double_quote, rows.drop_last()) =~= Seq::<u8>::empty());
        assert(csv::rows_bytes(cols, double_quote, rows) =~= csv::row_bytes(
            cols,
            double_quote,
            rows[0],
        ) + csv::rows_bytes(cols, double_quote, rows.drop_first()));
    } else {
        let front = rows.drop_last();
        lemma_rows_front(cols, double_quote, front);
        assert(front.drop_first() =~= rows.drop_first().drop_last());
        assert(rows.drop_first().last() == rows.last());
        assert(csv::rows_bytes(cols, double_quote, rows) =~= csv::row_bytes(
            cols,
            double_quote,
            rows[0],
        ) + csv::rows_bytes(cols, double_quote, rows.drop_first()));
    }
}

proof fn lemma_rows_read(cols: Seq<EsColumn>, double_quote: bool, rows: Seq<CsvRow>)
    requires
        forall|k: int| 0 <= k < rows.len() ==> plain_date(#[trigger] rows[k]),
    ensures
        read_records(csv::rows_bytes(cols, double_quote, rows)) == rows.map_values(
            |row: CsvRow| fields_of(cols, row),
        ),
    decreases rows.len(),
{
    let all = rows.map_values(|row: CsvRow| fields_of(cols, row));
    let s = csv::rows_bytes(cols, double_quote, rows);
    if rows.len() == 0 {
        assert(all =~= Seq::<Seq<Seq<u8>>>::empty());
    } else {
        let row = rows[0];
        let more = rows.drop_first();
        let rest = csv::rows_bytes(cols, double_quote, more);
        assert(plain_date(rows[0]));
        lemma_rows_front(cols, double_quote, rows);
        lemma_cells(cols, row);
        let cell = csv::name_cell(double_quote, row);
        let value = encode_utf8(row.path@);
        assert(s =~= with_commas(cells(cols, row)) + cell + crlf() + rest);
        lemma_record(cells(cols, row), cell, value, rest);
        assert forall|k: int| 0 <= k < more.len() implies plain_date(#[trigger] more[k]) by {
            assert(more[k] == rows[k + 1]);
        }
        lemma_rows_read(cols, double_quote, more);
        assert(all =~= seq![fields_of(cols, row)] + more.map_values(
            |row: CsvRow| fields_of(cols, row),
        ));
    }
}

/// A document without its byte order mark.
pub open spec fn without_mark(opts: CsvOptions, doc: Seq<u8>) -> Seq<u8> {
    if opts.bom {
        doc.subrange(3, doc.len() as int)
    } else {
        doc
    }
}

/// What is written is read back: behind the byte order mark a reader finds the
/// header, where there is one, and then for each row its fields, whatever the
/// file names hold and whether or not they are always quoted. Dates must not
/// hold a comma, a quote, CR or LF; they are never quoted.
pub proof fn law_document_reads_back(opts: CsvOptions, rows: Seq<CsvRow>)
    requires
        forall|k: int| 0 <= k < rows.len() ==> plain_date(#[trigger] rows[k]),
    ensures
        ({
            let doc = csv::front_bytes(opts) + csv::rows_bytes(
                opts.columns@,
                opts.double_quote,
                rows,
            );
            read_records(without_mark(opts, doc)) == (if opts.header {
                seq![header_fields(opts.columns@)]
            } else {
                seq![]
            }) + rows.map_values(|row: CsvRow| fields_of(opts.columns@, row))
        }),
{
    let cols = opts.columns@;
    let body = csv::rows_bytes(cols, opts.double_quote, rows);
    let doc = csv::front_bytes(opts) + body;
    let all = rows.map_values(|row: CsvRow| fields_of(cols, row));
    lemma_rows_read(cols, opts.double_quote, rows);
    if opts.header {
        let names = header_fields(cols).drop_last();
        let last = encode_utf8("Filename"@);
        lemma_names(cols);
        lemma_filename();
        let s = with_commas(names) + last + crlf() + body;
        assert(without_mark(opts, doc) =~= s);
        lemma_record(names, last, last, body);
        assert(names.push(last) =~= header_fields(cols));
    } else {
        assert(without_mark(opts, doc) =~= body);
        assert(Seq::<Seq<Seq<u8>>>::empty() + all =~= all);
    }
}

} // verus!
