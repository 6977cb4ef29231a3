use goz::fold::fold;
use goz::query::parse::{parse_query, Kind, ParsedQuery, QueryError, SizeRange, KB, MB};

fn q(s: &str) -> ParsedQuery {
    parse_query(s).unwrap()
}

#[test]
fn space_separated_terms_are_anded_and_folded() {
    let p = q("Report Invoice");
    assert_eq!(p.name_terms, vec![b"report".to_vec(), b"invoice".to_vec()]);
    assert!(!p.match_case);
}

#[test]
fn quoted_phrase_keeps_spaces() {
    let p = q("\"quarterly report\"");
    assert_eq!(p.name_terms, vec![b"quarterly report".to_vec()]);
}

#[test]
fn case_function_disables_folding() {
    let p = q("Report case:");
    assert!(p.match_case);
    assert_eq!(p.name_terms, vec![b"Report".to_vec()]);
}

#[test]
fn case_directive_variants_are_consumed_not_searched() {
    // Regression: `case:0` must be recognized (and disable case
    // sensitivity), never leak as a literal "case:0" search term.
    let p = q("Report case:0");
    assert!(!p.match_case);
    assert_eq!(p.name_terms, vec![b"report".to_vec()]); // folded, no "case:0"
    assert!(q("Report case:1").match_case);
    // Last directive wins.
    assert!(!q("case:1 foo case:0").match_case);
    assert!(q("case:0 foo case:1").match_case);
}

#[test]
fn path_term_detected_by_separator() {
    let p = q("projects\\src");
    assert_eq!(p.path_terms, vec![b"projects\\src".to_vec()]);
    assert!(p.name_terms.is_empty());
}

#[test]
fn wildcards_bucketed_and_matched_whole_name() {
    let p = q("*.rs");
    assert_eq!(p.wildcards.len(), 1);
    assert!(p.wildcards[0].matches(&fold(b"main.rs")));
    assert!(!p.wildcards[0].matches(&fold(b"main.rs.bak")));
    let star = q("re*rt");
    assert!(star.wildcards[0].matches(&fold(b"report")));
    assert!(star.wildcards[0].matches(&fold(b"rert"))); // "re" + empty + "rt"
    assert!(!star.wildcards[0].matches(&fold(b"rt"))); // missing the "re" prefix
    assert!(!star.wildcards[0].matches(&fold(b"reprtx")));
}

#[test]
fn question_mark_matches_one_code_point() {
    let p = q("f?o");
    assert!(p.wildcards[0].matches(&fold(b"foo")));
    assert!(p.wildcards[0].matches(&fold(b"fao")));
    assert!(!p.wildcards[0].matches(&fold(b"fo")));
    assert!(!p.wildcards[0].matches(&fold(b"fooo")));
}

#[test]
fn ext_function_splits_and_folds() {
    let p = q("ext:JPG;png;.Gif");
    assert_eq!(
        p.filters.ext,
        Some(vec![b"jpg".to_vec(), b"png".to_vec(), b"gif".to_vec()])
    );
}

#[test]
fn file_and_folder_kinds() {
    assert_eq!(q("file:").filters.kind, Some(Kind::File));
    assert_eq!(q("folder:").filters.kind, Some(Kind::Folder));
    let p = q("file:report");
    assert_eq!(p.filters.kind, Some(Kind::File));
    assert_eq!(p.name_terms, vec![b"report".to_vec()]);
}

#[test]
fn size_operators_ranges_and_constants() {
    assert_eq!(
        q("size:>1mb").filters.size,
        Some(SizeRange {
            min: MB + 1,
            max: u64::MAX
        })
    );
    assert_eq!(
        q("size:>=1mb").filters.size,
        Some(SizeRange {
            min: MB,
            max: u64::MAX
        })
    );
    assert_eq!(
        q("size:1mb..10mb").filters.size,
        Some(SizeRange {
            min: MB,
            max: 10 * MB
        })
    );
    assert_eq!(
        q("size:tiny").filters.size,
        Some(SizeRange {
            min: 0,
            max: 10 * KB
        })
    );
    assert_eq!(
        q("size:1024").filters.size,
        Some(SizeRange {
            min: 1024,
            max: 1024
        })
    );
    assert_eq!(
        q("size:..500").filters.size,
        Some(SizeRange { min: 0, max: 500 })
    );
}

#[test]
fn unsupported_operators_rejected_unquoted_but_literal_when_quoted() {
    assert_eq!(
        parse_query("a|b"),
        Err(QueryError::UnsupportedOperator('|'))
    );
    assert_eq!(
        parse_query("!foo"),
        Err(QueryError::UnsupportedOperator('!'))
    );
    // `<`/`>` are allowed (comparison operators); "a<b" is literal text.
    assert_eq!(q("a<b").name_terms, vec![b"a<b".to_vec()]);
    // Quoted → literal, no rejection.
    assert_eq!(q("\"a|b\"").name_terms, vec![b"a|b".to_vec()]);
}

#[test]
fn unknown_function_is_literal_text() {
    // `parent:` is not supported in v1 → treated as literal name text.
    let p = q("parent:foo");
    assert_eq!(p.name_terms, vec![b"parent:foo".to_vec()]);
}

#[test]
fn malformed_size_is_reported() {
    assert!(matches!(
        parse_query("size:abc"),
        Err(QueryError::Malformed { what: "size:", .. })
    ));
}

#[test]
fn empty_query_has_no_text_constraints() {
    assert!(q("").is_text_empty());
    assert!(q("   ").is_text_empty());
}

#[test]
fn a_pattern_has_a_longest_literal() {
    let p = q("*ab?cde*fgh");
    let w = &p.wildcards[0];
    // Of two runs of the same length it is the first.
    assert_eq!(w.longest_literal(), Some(b"cde".to_vec()));
    assert!(w.matches(b"xxab1cdezzfgh"));
    assert!(!w.matches(b"xxab1cdezzfgh."));
    assert_eq!(q("*?*").wildcards[0].longest_literal(), None);
    let accented = q("*\u{e9}a*");
    assert_eq!(
        accented.wildcards[0].longest_literal(),
        Some("\u{e9}a".as_bytes().to_vec())
    );
}
