use poncu::http_range::{is_range_satisfiable, parse, ByteRange, CompleteLength, HttpRange};

#[test]
fn rejects_empty_header() {
    assert!(parse("", 10000).is_none());
}

#[test]
fn rejects_wrong_unit() {
    assert!(parse("items=0-499", 10000).is_none());
}

#[test]
fn rejects_missing_equals() {
    assert!(parse("bytes", 10000).is_none());
}

#[test]
fn rejects_double_equals() {
    assert!(parse("bytes=0-499=1", 10000).is_none());
}

#[test]
fn rejects_extra_slash() {
    assert!(parse("bytes=0-499/12/34", 10000).is_none());
}

#[test]
fn rejects_non_numeric_bounds() {
    assert!(parse("bytes=a-b", 10000).is_none());
    assert!(parse("bytes=0-4x9", 10000).is_none());
    assert!(parse("bytes=0-499/total", 10000).is_none());
}

#[test]
fn rejects_inverted_range() {
    assert!(parse("bytes=500-100", 10000).is_none());
}

#[test]
fn rejects_empty_spec() {
    assert!(parse("bytes=", 10000).is_none());
    assert!(parse("bytes=-", 10000).is_none());
    assert!(parse("bytes=0-0,", 10000).is_none());
}

#[test]
fn rejects_bad_token_shape() {
    assert!(parse("bytes=1-2-3", 10000).is_none());
}

#[test]
fn rejects_zero_suffix() {
    assert!(parse("bytes=-0", 10000).is_none());
}

#[test]
fn rejects_oversized_suffix() {
    assert!(parse("bytes=-20000", 10000).is_none());
}

#[test]
fn rejects_open_range_past_end() {
    assert!(parse("bytes=10000-", 10000).is_none());
}

#[test]
fn rejects_overflowing_number() {
    assert!(parse("bytes=0-99999999999999999999999", 10000).is_none());
}

#[test]
fn suffix_of_whole_resource() {
    let http_range = parse("bytes=-10000", 10000).unwrap();
    assert_eq!(
        http_range,
        HttpRange {
            ranges: vec![ByteRange { start: 0, end: 9999 }],
            complete_length: None
        }
    );
}

#[test]
fn tolerates_whitespace() {
    let http_range = parse(" bytes = 500 - 999 ", 10000).unwrap();
    assert_eq!(
        http_range,
        HttpRange {
            ranges: vec![ByteRange { start: 500, end: 999 }],
            complete_length: None
        }
    );
}

#[test]
fn trailing_slash_means_no_tag() {
    let http_range = parse("bytes=0-499/", 10000).unwrap();
    assert_eq!(http_range.complete_length, None);
}

#[test]
fn literal_range_beyond_length_parses() {
    // A literal pair is kept even past the resource's end; whether it
    // can be served is a separate question.
    let http_range = parse("bytes=20000-30000", 10000).unwrap();
    assert_eq!(
        http_range.ranges,
        vec![ByteRange { start: 20000, end: 30000 }]
    );
    assert!(!is_range_satisfiable(&http_range, 10000));
}

#[test]
fn satisfiable_within_length() {
    let http_range = parse("bytes=0-499", 10000).unwrap();
    assert!(is_range_satisfiable(&http_range, 10000));
    assert!(!is_range_satisfiable(&http_range, 400));
}

#[test]
fn to_header_canonical_text() {
    let http_range = parse("bytes=300-400,400-700,601-999", 10000).unwrap();
    assert_eq!(http_range.to_header(), "bytes=300-999");

    let tagged = parse("bytes=0-499/8000", 10000).unwrap();
    assert_eq!(tagged.to_header(), "bytes=0-499/8000");

    let unknown = parse("bytes=0-0,-1/*", 10000).unwrap();
    assert_eq!(unknown.to_header(), "bytes=0-0,9999-9999/*");
}

#[test]
fn reparse_of_canonical_text_is_identity() {
    let inputs = [
        "bytes=300-400,400-700,601-999",
        "bytes=0-0,-1",
        "bytes=9500-",
        "bytes=0-499/8000",
        "bytes=0-499/*",
    ];
    for input in inputs {
        let first = parse(input, 10000).unwrap();
        let again = parse(first.to_header().as_str(), 10000).unwrap();
        assert_eq!(first, again);
    }
}

#[test]
fn merged_output_is_sorted_and_disjoint() {
    let http_range = parse("bytes=9500-,0-0,4000-4999,1-10,4800-5200", 10000).unwrap();
    let rs = &http_range.ranges;
    assert_eq!(
        rs,
        &vec![
            ByteRange { start: 0, end: 10 },
            ByteRange { start: 4000, end: 5200 },
            ByteRange { start: 9500, end: 9999 },
        ]
    );
    for w in rs.windows(2) {
        assert!(w[0].end + 1 < w[1].start);
        assert!(w[0].start <= w[0].end);
    }
}

#[test]
fn complete_length_tag_values() {
    assert_eq!(
        parse("bytes=0-1/5", 10000).unwrap().complete_length,
        Some(CompleteLength::Representation(5))
    );
    assert_eq!(
        parse("bytes=0-1/*", 10000).unwrap().complete_length,
        Some(CompleteLength::Unknown)
    );
    assert_eq!(parse("bytes=0-1", 10000).unwrap().complete_length, None);
}
