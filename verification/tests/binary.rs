use goz::proto::{
    decode_results_payload, encode_results_payload, push_item, push_results_header, QueryResults,
    ResultItem, RESP_TAG_RESULTS,
};
use goz::wtf8;

fn round_trip(page: &QueryResults) {
    let mut payload = Vec::new();
    encode_results_payload(page, &mut payload);
    assert_eq!(payload[0], RESP_TAG_RESULTS, "tag byte");
    let back = decode_results_payload(&payload[1..]).expect("decode");
    assert_eq!(&back, page);
}

#[test]
fn empty_page_round_trips() {
    round_trip(&QueryResults {
        total: 0,
        items: vec![],
        more: false,
        volumes_incomplete: false,
        metadata_pending: false,
        generation: 0,
    });
}

#[test]
fn mixed_items_round_trip() {
    round_trip(&QueryResults {
        total: 987_654,
        items: vec![
            ResultItem {
                path: r"C:\Windows\System32\kernel32.dll".into(),
                path_u16: None,
                size: Some(1234),
                mtime_ft: Some(133_500_000_000_000_000),
                is_dir: false,
            },
            ResultItem {
                path: r"D:\folder".into(),
                path_u16: None,
                size: None,
                mtime_ft: None,
                is_dir: true,
            },
            ResultItem {
                path: "E:\\ünïcode\\文件.txt".into(),
                path_u16: None,
                size: Some(0),
                mtime_ft: Some(-1),
                is_dir: false,
            },
        ],
        more: true,
        volumes_incomplete: true,
        metadata_pending: true,
        generation: 42,
    });
}

#[test]
fn lossy_path_round_trips_with_exact_units() {
    // A name with an unpaired high surrogate: the encoder ships the raw
    // WTF-8 bytes, the decoder flags it lossy and rebuilds the exact units.
    let units: Vec<u16> = vec![b'C' as u16, b':' as u16, b'\\' as u16, 0xD800, b'x' as u16];
    let mut wtf8_bytes = Vec::new();
    let lossy = wtf8::from_utf16(&units, &mut wtf8_bytes);
    assert!(lossy);
    let item = ResultItem {
        path: wtf8::to_string_lossy(&wtf8_bytes),
        path_u16: Some(units.clone()),
        size: Some(7),
        mtime_ft: None,
        is_dir: false,
    };
    let page = QueryResults {
        total: 1,
        items: vec![item],
        more: false,
        volumes_incomplete: false,
        metadata_pending: false,
        generation: 0,
    };
    round_trip(&page);
}

#[test]
fn truncated_body_errors_not_panics() {
    let mut payload = Vec::new();
    encode_results_payload(
        &QueryResults {
            total: 1,
            items: vec![ResultItem {
                path: r"C:\a.txt".into(),
                path_u16: None,
                size: Some(9),
                mtime_ft: None,
                is_dir: false,
            }],
            more: false,
            volumes_incomplete: false,
            metadata_pending: false,
            generation: 0,
        },
        &mut payload,
    );
    // Chop bytes off the end at every length; none should panic.
    for cut in 0..payload.len() {
        let _ = decode_results_payload(&payload[1..cut.max(1)]);
    }
}

#[test]
fn header_matches_from_hits_layout() {
    // The daemon builds a page from raw (prefix + path) bytes via
    // push_results_header + push_item; assert that produces the same bytes
    // as encode_results_payload over the equivalent items.
    let prefix = b"C:\\";
    let rel = b"Windows\\notepad.exe";
    let mut raw = Vec::new();
    raw.extend_from_slice(prefix);
    raw.extend_from_slice(rel);

    let mut from_hits = Vec::new();
    push_results_header(&mut from_hits, 1, 0, false, false, false, 1);
    push_item(&mut from_hits, &raw, false, Some(55), Some(7));

    let mut from_items = Vec::new();
    encode_results_payload(
        &QueryResults {
            total: 1,
            items: vec![ResultItem {
                path: String::from_utf8(raw.clone()).unwrap(),
                path_u16: None,
                size: Some(55),
                mtime_ft: Some(7),
                is_dir: false,
            }],
            more: false,
            volumes_incomplete: false,
            metadata_pending: false,
            generation: 0,
        },
        &mut from_items,
    );
    assert_eq!(from_hits, from_items);
}

#[test]
fn page_bytes_are_exact() {
    let mut out = Vec::new();
    push_results_header(&mut out, 1, 2, true, false, false, 1);
    push_item(&mut out, b"C:", true, None, None);
    let back = decode_results_payload(&out[1..]).expect("decode");
    assert_eq!((back.total, back.generation, back.more), (1, 2, true));
    assert_eq!(back.items.len(), 1);
    assert_eq!(back.items[0].path, "C:");
    assert!(back.items[0].is_dir);
}

#[test]
fn a_page_cut_short_is_an_error() {
    let item = |path: &str, size: Option<u64>, mtime_ft: Option<i64>| ResultItem {
        path: path.into(),
        path_u16: None,
        size,
        mtime_ft,
        is_dir: false,
    };
    let page = QueryResults {
        total: 3,
        items: vec![
            item(r"C:\a.txt", Some(9), None),
            item(r"C:\b", None, Some(-1)),
            item(r"C:\c.txt", Some(1), Some(2)),
        ],
        more: true,
        volumes_incomplete: false,
        metadata_pending: true,
        generation: 5,
    };
    let mut payload = Vec::new();
    encode_results_payload(&page, &mut payload);
    let body = &payload[1..];
    for cut in 0..body.len() {
        let e = decode_results_payload(&body[..cut]).expect_err("cut short");
        assert_eq!(e.message(), "malformed binary results page: truncated");
    }
    assert_eq!(decode_results_payload(body).expect("whole").items, page.items);
}
