use goz::escompat::{parse_argv, EsFatal, EsPlan};
use goz::types::{EsColumn, SortDir, SortKey, SortSpec};

fn parse(tokens: &[&str]) -> Result<EsPlan, EsFatal> {
    let args: Vec<String> = tokens.iter().map(ToString::to_string).collect();
    parse_argv(&args)
}

fn plan(tokens: &[&str]) -> EsPlan {
    parse(tokens).expect("expected a successful parse")
}

fn fatal(tokens: &[&str]) -> EsFatal {
    parse(tokens).expect_err("expected a fatal parse error")
}


#[test]
fn empty_argv_yields_default_plan() {
    let parsed = plan(&[]);
    assert_eq!(parsed, EsPlan::default());
    assert_eq!(parsed.query, "");
    assert_eq!(parsed.sort, SortSpec::default());
    assert!(parsed.bom);
    assert!(parsed.header);
    assert!(parsed.double_quote);
    assert!(!parsed.match_case);
}

#[test]
fn app_reference_invocation_full_plan() {
    let parsed = plan(&[
        "-path",
        "C:\\some dir",
        "report",
        "-n",
        "200",
        "-size",
        "-dm",
        "-sort-path",
        "-export-csv",
        "C:\\tmp\\out.csv",
    ]);
    assert_eq!(
        parsed,
        EsPlan {
            query: "report".to_string(),
            scope: Some("C:\\some dir".to_string()),
            limit: Some(200),
            columns: vec![EsColumn::Size, EsColumn::DateModified],
            sort: SortSpec {
                key: SortKey::Path,
                dir: SortDir::Asc,
            },
            export_csv: Some("C:\\tmp\\out.csv".to_string()),
            bom: true,
            header: true,
            double_quote: true,
            match_case: false,
            json: false,
            status: false,
            insecure_no_server_check: false,
        }
    );
}

#[test]
fn interior_dashes_are_optional_everywhere() {
    assert_eq!(
        plan(&["-sortpath"]).sort,
        SortSpec::default_for(SortKey::Path)
    );
    assert_eq!(plan(&["-maxresults", "7"]).limit, Some(7));
    assert!(!plan(&["-noutf8bom"]).bom);
    assert!(!plan(&["-nodoublequote"]).double_quote);
    assert_eq!(
        plan(&["-datemodified"]).columns,
        vec![EsColumn::DateModified]
    );
    assert_eq!(
        plan(&["-sortpathascending"]).sort,
        SortSpec {
            key: SortKey::Path,
            dir: SortDir::Asc,
        }
    );
    assert_eq!(
        plan(&["-sortdatemodifieddescending"]).sort,
        SortSpec {
            key: SortKey::DateModified,
            dir: SortDir::Desc,
        }
    );
    // Partial omission is fine too: any subset of dashes may be dropped.
    assert!(!plan(&["-no-utf8bom"]).bom);
    assert_eq!(plan(&["-max-results", "3"]).limit, Some(3));
}

#[test]
fn switch_matching_is_case_sensitive() {
    assert_eq!(fatal(&["-SORT-PATH"]).exit_code, 6);
    assert_eq!(fatal(&["-N", "5"]).exit_code, 6);
}

#[test]
fn input_dash_where_canonical_has_none_is_unknown() {
    assert_eq!(fatal(&["-d-m"]).exit_code, 6);
    assert_eq!(fatal(&["-si-ze"]).exit_code, 6);
    assert_eq!(fatal(&["-no--header"]).exit_code, 6);
}

#[test]
fn unknown_dash_switch_is_exit_6_with_token() {
    let err = fatal(&["-zzz"]);
    assert_eq!(err.exit_code, 6);
    assert!(err.message.contains("-zzz"), "message was: {}", err.message);
}

#[test]
fn slash_token_without_match_falls_through_to_query() {
    assert_eq!(plan(&["/nomatch"]).query, "/nomatch");
    assert_eq!(plan(&["report", "/downloads"]).query, "report /downloads");
}

#[test]
fn slash_token_with_match_is_a_switch() {
    // Research: es_check_param treats `-` and `/` prefixes identically,
    // so /n is the -n switch, not search text.
    let parsed = plan(&["/n", "50"]);
    assert_eq!(parsed.limit, Some(50));
    assert_eq!(parsed.query, "");
    // A matched `/` switch with a missing parameter is exit 4 like `-`.
    assert_eq!(fatal(&["/path"]).exit_code, 4);
}

#[test]
fn missing_parameter_is_exit_4_naming_the_switch() {
    for switch in ["-n", "-path", "-export-csv", "-sort", "-maxresults"] {
        let err = fatal(&[switch]);
        assert_eq!(err.exit_code, 4, "switch: {switch}");
        assert!(
            err.message.contains(switch),
            "message for {switch} was: {}",
            err.message
        );
    }
}

#[test]
fn non_numeric_count_is_exit_4() {
    assert_eq!(fatal(&["-n", "abc"]).exit_code, 4);
    assert_eq!(fatal(&["-n", "-5"]).exit_code, 4);
    // Overflowing u32 is a bad parameter, not a silent wrap.
    assert_eq!(fatal(&["-n", "4294967296"]).exit_code, 4);
}

#[test]
fn sort_param_defaults_direction_per_key() {
    assert_eq!(
        plan(&["-sort", "dm"]).sort,
        SortSpec {
            key: SortKey::DateModified,
            dir: SortDir::Desc,
        }
    );
    assert_eq!(
        plan(&["-sort", "size"]).sort,
        SortSpec {
            key: SortKey::Size,
            dir: SortDir::Desc,
        }
    );
    assert_eq!(
        plan(&["-sort", "name"]).sort,
        SortSpec {
            key: SortKey::Name,
            dir: SortDir::Asc,
        }
    );
    assert_eq!(
        plan(&["-sort", "path"]).sort,
        SortSpec {
            key: SortKey::Path,
            dir: SortDir::Asc,
        }
    );
}

#[test]
fn sort_param_with_direction_suffix() {
    assert_eq!(
        plan(&["-sort", "name-descending"]).sort,
        SortSpec {
            key: SortKey::Name,
            dir: SortDir::Desc,
        }
    );
    assert_eq!(
        plan(&["-sort", "date-modified-ascending"]).sort,
        SortSpec {
            key: SortKey::DateModified,
            dir: SortDir::Asc,
        }
    );
    // The parameter uses the same dash-optional matching as switch names.
    assert_eq!(
        plan(&["-sort", "namedescending"]).sort,
        SortSpec {
            key: SortKey::Name,
            dir: SortDir::Desc,
        }
    );
    assert_eq!(
        plan(&["-sort", "datemodified"]).sort,
        SortSpec {
            key: SortKey::DateModified,
            dir: SortDir::Desc,
        }
    );
}

#[test]
fn sort_param_unknown_key_is_exit_4() {
    let err = fatal(&["-sort", "bogus"]);
    assert_eq!(err.exit_code, 4);
    assert!(
        err.message.contains("bogus"),
        "message was: {}",
        err.message
    );
}

#[test]
fn combined_sort_switches() {
    assert_eq!(
        plan(&["-sort-name"]).sort,
        SortSpec::default_for(SortKey::Name)
    );
    assert_eq!(
        plan(&["-sort-size"]).sort,
        SortSpec {
            key: SortKey::Size,
            dir: SortDir::Desc,
        }
    );
    assert_eq!(
        plan(&["-sort-dm"]).sort,
        SortSpec {
            key: SortKey::DateModified,
            dir: SortDir::Desc,
        }
    );
    assert_eq!(
        plan(&["-sort-date-modified"]).sort,
        SortSpec {
            key: SortKey::DateModified,
            dir: SortDir::Desc,
        }
    );
    assert_eq!(
        plan(&["-sort-dm-descending"]).sort,
        SortSpec {
            key: SortKey::DateModified,
            dir: SortDir::Desc,
        }
    );
    assert_eq!(
        plan(&["-sort-size-ascending"]).sort,
        SortSpec {
            key: SortKey::Size,
            dir: SortDir::Asc,
        }
    );
}

#[test]
fn last_sort_switch_wins() {
    assert_eq!(
        plan(&["-sort-path", "-sort", "size"]).sort,
        SortSpec {
            key: SortKey::Size,
            dir: SortDir::Desc,
        }
    );
    assert_eq!(
        plan(&["-sort", "size", "-sortpath"]).sort,
        SortSpec {
            key: SortKey::Path,
            dir: SortDir::Asc,
        }
    );
}

#[test]
fn query_tokens_join_with_single_spaces_around_interleaved_flags() {
    let parsed = plan(&["foo", "-size", "bar", "-n", "5", "baz qux"]);
    assert_eq!(parsed.query, "foo bar baz qux");
    assert_eq!(parsed.limit, Some(5));
    assert_eq!(parsed.columns, vec![EsColumn::Size]);
}

#[test]
fn columns_dedupe_and_reorder_like_es() {
    assert_eq!(plan(&["-size", "-size"]).columns, vec![EsColumn::Size]);
    // es removes the existing instance then appends: last occurrence
    // determines position.
    assert_eq!(
        plan(&["-size", "-dm", "-size"]).columns,
        vec![EsColumn::DateModified, EsColumn::Size]
    );
}

#[test]
fn native_namespace_flags() {
    assert!(plan(&["--json"]).json);
    assert!(plan(&["--status"]).status);
    assert!(plan(&["--insecure-no-server-check"]).insecure_no_server_check);
    let all = plan(&["--json", "--status"]);
    assert!(all.json && all.status);
}

#[test]
fn native_namespace_unknown_is_exit_6() {
    let err = fatal(&["--bogus"]);
    assert_eq!(err.exit_code, 6);
    assert!(
        err.message.contains("--bogus"),
        "message was: {}",
        err.message
    );
    // Native names are exact: no dash-optionality in the -- namespace.
    assert_eq!(fatal(&["--insecureno-server-check"]).exit_code, 6);
}

#[test]
fn all_dash_tokens_are_search_text() {
    assert_eq!(plan(&["-", "--", "---"]).query, "- -- ---");
}

#[test]
fn utf8_bom_switches() {
    assert!(plan(&["-utf8-bom"]).bom, "accepted no-op vs goz default");
    assert!(!plan(&["-no-utf8-bom"]).bom);
    assert!(plan(&["-no-utf8-bom", "-utf8-bom"]).bom, "last flag wins");
}

#[test]
fn header_and_double_quote_suppression() {
    assert!(!plan(&["-no-header"]).header);
    assert!(!plan(&["-no-double-quote"]).double_quote);
}

#[test]
fn match_case_aliases() {
    assert!(plan(&["-case"]).match_case);
    assert!(plan(&["-match-case"]).match_case);
    assert!(plan(&["-matchcase"]).match_case);
}

#[test]
fn scope_is_taken_verbatim() {
    // Absolutization is the CLI's job; the core keeps the raw value.
    assert_eq!(
        plan(&["-path", "rel\\dir"]).scope,
        Some("rel\\dir".to_string())
    );
}

#[test]
fn fatal_display_is_the_message() {
    let err = fatal(&["-zzz"]);
    assert_eq!(err.text(), err.message);
}

/// A small generator of test data: the same values in every run.
struct Rng(u64);

impl Rng {
    fn next(&mut self) -> u64 {
        self.0 ^= self.0 << 13;
        self.0 ^= self.0 >> 7;
        self.0 ^= self.0 << 17;
        self.0
    }

    fn below(&mut self, n: u64) -> u64 {
        self.next() % n
    }
}

#[test]
fn parse_argv_never_panics_on_arbitrary_input() {
    let mut rng = Rng(0x9E37_79B9_7F4A_7C15);
    let alphabet: Vec<char> = "-/abn5 *?\"\\:é文🎉\u{0}".chars().collect();
    for _ in 0..400 {
        let mut args: Vec<String> = Vec::new();
        for _ in 0..rng.below(12) {
            let mut s = String::new();
            for _ in 0..rng.below(10) {
                s.push(alphabet[rng.below(alphabet.len() as u64) as usize]);
            }
            args.push(s);
        }
        match parse_argv(&args) {
            Ok(_) => {}
            Err(e) => assert!(e.exit_code == 4 || e.exit_code == 6),
        }
    }
}

#[test]
fn parse_argv_never_panics_on_flaglike_input() {
    let mut rng = Rng(0xD1B5_4A32_D192_ED03);
    let words = [
        "-n", "-path", "-sort", "-sort-dm", "-export-csv", "-size", "/n", "/path", "--json", "-",
        "", "-case", "7", "x", "-no-header", "/zz", "-zz", "size",
    ];
    for _ in 0..600 {
        let mut args: Vec<String> = Vec::new();
        for _ in 0..rng.below(6) {
            args.push(words[rng.below(words.len() as u64) as usize].to_string());
        }
        match parse_argv(&args) {
            Ok(_) => {}
            Err(e) => assert!(e.exit_code == 4 || e.exit_code == 6),
        }
    }
}

#[test]
fn error_messages_are_exact() {
    assert_eq!(fatal(&["-zzz"]).text(), "unknown switch: -zzz");
}

/// es exit code 6. Parsing rejects the switch before any daemon contact.
#[test]
fn unknown_switch_exits_6() {
    let err = fatal(&["-bogus-switch", "foo"]);
    assert_eq!(err.exit_code, 6, "stderr: {}", err.message);
    assert!(err.message.contains("unknown switch: -bogus-switch"));
}

/// es exit code 4. `-path` consumes a following value; there is none here.
#[test]
fn missing_switch_parameter_exits_4() {
    let err = fatal(&["-path"]);
    assert_eq!(err.exit_code, 4, "stderr: {}", err.message);
    assert!(err.message.contains("expected an additional parameter after -path"));
}

#[test]
fn any_choice_of_dashes_is_the_same_switch() {
    let whole = plan(&["-sort-date-modified-descending", "-no-utf8-bom", "-max-results", "7", "x"]);
    let spellings = [
        ["-sort-date-modified-descending", "-noutf8-bom", "-maxresults"],
        ["-sortdate-modifieddescending", "-no-utf8bom", "-max-results"],
        ["-sort-datemodified-descending", "-noutf8bom", "-maxresults"],
        ["/sortdatemodifieddescending", "/no-utf8-bom", "/max-results"],
        ["/sort-date-modified-descending", "-noutf8bom", "/maxresults"],
    ];
    for s in spellings {
        assert_eq!(plan(&[s[0], s[1], s[2], "7", "x"]), whole);
    }
    // A parameter is taken as it stands.
    assert_ne!(plan(&["-path", "a-b"]), plan(&["-path", "ab"]));
}
