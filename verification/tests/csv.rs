use goz::output::{write_csv, CsvOptions, CsvRow};
use goz::types::EsColumn;

fn size_dm_opts() -> CsvOptions {
    CsvOptions {
        columns: vec![EsColumn::Size, EsColumn::DateModified],
        ..CsvOptions::default()
    }
}

fn file<'a>(path: &'a str, size: u64, mtime: &'static str) -> CsvRow<'a> {
    CsvRow {
        path,
        size: Some(size),
        mtime: Some(mtime),
        is_dir: false,
    }
}

fn write(opts: &CsvOptions, rows: Vec<CsvRow<'_>>) -> Vec<u8> {
    let mut out = Vec::new();
    write_csv(opts, &rows, &mut out);
    out
}

#[test]
fn golden_zero_rows_bom_and_header_only() {
    let out = write(&size_dm_opts(), vec![]);
    assert_eq!(
        out.as_slice(),
        b"\xEF\xBB\xBFSize,Date Modified,Filename\r\n"
    );
}

#[test]
fn golden_file_row() {
    let out = write(
        &size_dm_opts(),
        vec![file("C:\\proj\\a.txt", 1024, "2026-07-13T15:42:00")],
    );
    assert_eq!(
        out.as_slice(),
        b"\xEF\xBB\xBFSize,Date Modified,Filename\r\n\
          1024,2026-07-13T15:42:00,\"C:\\proj\\a.txt\"\r\n"
    );
}

#[test]
fn golden_dir_row_empty_size() {
    // Directories get an empty Size even when a size is present, and
    // when it is None; a file with size None is also empty.
    let rows = vec![
        CsvRow {
            path: "C:\\proj\\sub",
            size: None,
            mtime: Some("2026-07-12T09:01:00"),
            is_dir: true,
        },
        CsvRow {
            path: "C:\\proj\\sized-dir",
            size: Some(4096),
            mtime: None,
            is_dir: true,
        },
        CsvRow {
            path: "C:\\proj\\unknown.bin",
            size: None,
            mtime: None,
            is_dir: false,
        },
    ];
    let out = write(&size_dm_opts(), rows);
    assert_eq!(
        out.as_slice(),
        b"\xEF\xBB\xBFSize,Date Modified,Filename\r\n\
          ,2026-07-12T09:01:00,\"C:\\proj\\sub\"\r\n\
          ,,\"C:\\proj\\sized-dir\"\r\n\
          ,,\"C:\\proj\\unknown.bin\"\r\n"
    );
}

#[test]
fn golden_interior_quotes_doubled() {
    let out = write(
        &size_dm_opts(),
        vec![file("C:\\he said \"hi\".txt", 7, "2026-01-02T03:04:05")],
    );
    assert_eq!(
        out.as_slice(),
        b"\xEF\xBB\xBFSize,Date Modified,Filename\r\n\
          7,2026-01-02T03:04:05,\"C:\\he said \"\"hi\"\".txt\"\r\n"
    );
}

#[test]
fn golden_commas_and_spaces_stay_one_field() {
    let out = write(
        &size_dm_opts(),
        vec![file("C:\\a, b\\c d.txt", 53, "2026-07-11T08:00:00")],
    );
    assert_eq!(
        out.as_slice(),
        b"\xEF\xBB\xBFSize,Date Modified,Filename\r\n\
          53,2026-07-11T08:00:00,\"C:\\a, b\\c d.txt\"\r\n"
    );
}

#[test]
fn golden_unicode_path_utf8_verbatim() {
    // "C:\ağaç\文件名.txt": ğ=C4 9F, ç=C3 A7, 文=E6 96 87, 件=E4 BB B6,
    // 名=E5 90 8D.
    let out = write(
        &size_dm_opts(),
        vec![file(
            "C:\\a\u{11F}a\u{E7}\\\u{6587}\u{4EF6}\u{540D}.txt",
            1,
            "2026-06-01T00:00:00",
        )],
    );
    assert_eq!(
        out.as_slice(),
        b"\xEF\xBB\xBFSize,Date Modified,Filename\r\n\
          1,2026-06-01T00:00:00,\"C:\\a\xC4\x9Fa\xC3\xA7\\\xE6\x96\x87\xE4\xBB\xB6\xE5\x90\x8D.txt\"\r\n"
    );
}

#[test]
fn golden_no_header() {
    let opts = CsvOptions {
        header: false,
        ..size_dm_opts()
    };
    let out = write(&opts, vec![file("C:\\x.txt", 9, "2026-05-04T03:02:01")]);
    assert_eq!(
        out.as_slice(),
        b"\xEF\xBB\xBF9,2026-05-04T03:02:01,\"C:\\x.txt\"\r\n"
    );
}

#[test]
fn golden_no_bom() {
    let opts = CsvOptions {
        bom: false,
        ..size_dm_opts()
    };
    let out = write(&opts, vec![file("C:\\x.txt", 9, "2026-05-04T03:02:01")]);
    assert_eq!(
        out.as_slice(),
        b"Size,Date Modified,Filename\r\n\
          9,2026-05-04T03:02:01,\"C:\\x.txt\"\r\n"
    );
}

#[test]
fn golden_no_double_quote_plain_path_unquoted() {
    let opts = CsvOptions {
        double_quote: false,
        ..size_dm_opts()
    };
    let out = write(
        &opts,
        vec![file("C:\\proj\\a.txt", 5, "2026-07-13T15:42:00")],
    );
    assert_eq!(
        out.as_slice(),
        b"\xEF\xBB\xBFSize,Date Modified,Filename\r\n\
          5,2026-07-13T15:42:00,C:\\proj\\a.txt\r\n"
    );
}

#[test]
fn no_double_quote_still_quotes_when_needed() {
    // Research deviation from the naive reading of -no-double-quote: es
    // downgrades to quote-only-when-needed (_es_should_quote), it never
    // emits an unparseable line. A comma or quote in the path still
    // forces quoting.
    let opts = CsvOptions {
        double_quote: false,
        ..size_dm_opts()
    };
    let out = write(
        &opts,
        vec![
            file("C:\\a,b.txt", 1, "2026-01-01T00:00:00"),
            file("C:\\q\"uote.txt", 2, "2026-01-01T00:00:00"),
        ],
    );
    assert_eq!(
        out.as_slice(),
        b"\xEF\xBB\xBFSize,Date Modified,Filename\r\n\
          1,2026-01-01T00:00:00,\"C:\\a,b.txt\"\r\n\
          2,2026-01-01T00:00:00,\"C:\\q\"\"uote.txt\"\r\n"
    );
}

#[test]
fn golden_date_modified_only_column() {
    let opts = CsvOptions {
        columns: vec![EsColumn::DateModified],
        ..CsvOptions::default()
    };
    let out = write(&opts, vec![file("C:\\x.txt", 9, "2026-05-04T03:02:01")]);
    assert_eq!(
        out.as_slice(),
        b"\xEF\xBB\xBFDate Modified,Filename\r\n\
          2026-05-04T03:02:01,\"C:\\x.txt\"\r\n"
    );
}

#[test]
fn golden_filename_only_when_no_columns() {
    let out = write(
        &CsvOptions::default(),
        vec![file("C:\\x.txt", 9, "2026-05-04T03:02:01")],
    );
    assert_eq!(out.as_slice(), b"\xEF\xBB\xBFFilename\r\n\"C:\\x.txt\"\r\n");
}

#[test]
fn golden_column_order_follows_flag_order() {
    let opts = CsvOptions {
        columns: vec![EsColumn::DateModified, EsColumn::Size],
        bom: false,
        ..CsvOptions::default()
    };
    let out = write(&opts, vec![file("C:\\x.txt", 9, "2026-05-04T03:02:01")]);
    assert_eq!(
        out.as_slice(),
        b"Date Modified,Size,Filename\r\n\
          2026-05-04T03:02:01,9,\"C:\\x.txt\"\r\n"
    );
}

/// Minimal RFC-4180-style reader for the parse-back property: BOM strip,
/// CRLF records, `"`-quoting with `""` unescape. Panics on malformed
/// input: the property is that our writer never produces any.
fn parse_csv(mut bytes: &[u8]) -> Vec<Vec<String>> {
    if let Some(rest) = bytes.strip_prefix(b"\xEF\xBB\xBF") {
        bytes = rest;
    }
    let mut records = Vec::new();
    let mut fields = Vec::new();
    let mut field = Vec::new();
    let mut i = 0;
    while i < bytes.len() {
        match bytes[i] {
            b'"' if field.is_empty() => {
                i += 1;
                loop {
                    match bytes[i] {
                        b'"' if bytes.get(i + 1) == Some(&b'"') => {
                            field.push(b'"');
                            i += 2;
                        }
                        b'"' => {
                            i += 1;
                            break;
                        }
                        other => {
                            field.push(other);
                            i += 1;
                        }
                    }
                }
            }
            b',' => {
                fields.push(String::from_utf8(std::mem::take(&mut field)).unwrap());
                i += 1;
            }
            b'\r' if bytes.get(i + 1) == Some(&b'\n') => {
                fields.push(String::from_utf8(std::mem::take(&mut field)).unwrap());
                records.push(std::mem::take(&mut fields));
                i += 2;
            }
            other => {
                field.push(other);
                i += 1;
            }
        }
    }
    assert!(field.is_empty() && fields.is_empty(), "unterminated record");
    records
}

/// A small generator of test data: the same values in every run.
struct Rng(u64);

impl Rng {
    fn next(&mut self) -> u64 {
        self.0 ^= self.0 << 13;
        self.0 ^= self.0 >> 7;
        self.0 ^= self.0 << 17;
        self.0
    }

    fn below(&mut self, n: u64) -> u64 {
        self.next() % n
    }
}

/// Whatever the paths and sizes are, what is written can be read back.
#[test]
fn parse_back_recovers_exact_fields() {
    let mut rng = Rng(0xABCD_EF01_2345_6789);
    let alphabet: Vec<char> = "ab,\"\r\n ~\\:çğı文🎉".chars().collect();
    for _ in 0..300 {
        let mut rows: Vec<(String, Option<u64>, Option<String>, bool)> = Vec::new();
        for _ in 0..rng.below(8) {
            let mut path = String::new();
            for _ in 0..1 + rng.below(40) {
                path.push(alphabet[rng.below(alphabet.len() as u64) as usize]);
            }
            let size = if rng.below(2) == 0 { Some(rng.next()) } else { None };
            let date = if rng.below(2) == 0 {
                Some(format!("20{:02}-01-02T03:04:05", rng.below(100)))
            } else {
                None
            };
            rows.push((path, size, date, rng.below(2) == 0));
        }
        let opts = CsvOptions {
            bom: rng.below(2) == 0,
            header: rng.below(2) == 0,
            double_quote: rng.below(2) == 0,
            columns: vec![EsColumn::Size, EsColumn::DateModified],
        };
        let out = write(
            &opts,
            rows.iter()
                .map(|(path, size, mtime, is_dir)| CsvRow {
                    path,
                    size: *size,
                    mtime: mtime.as_deref(),
                    is_dir: *is_dir,
                })
                .collect(),
        );
        let mut expected: Vec<Vec<String>> = Vec::new();
        if opts.header {
            expected.push(vec!["Size".into(), "Date Modified".into(), "Filename".into()]);
        }
        for (path, size, mtime, is_dir) in &rows {
            let size_field = match (is_dir, size) {
                (false, Some(s)) => s.to_string(),
                _ => String::new(),
            };
            expected.push(vec![size_field, mtime.clone().unwrap_or_default(), path.clone()]);
        }
        assert_eq!(parse_csv(&out), expected);
    }
}
