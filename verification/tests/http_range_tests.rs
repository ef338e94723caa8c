use poncu::http_range::{parse, ByteRange, CompleteLength, HttpRange};

// Examples of byte-ranges-specifier values:
//    -  The first 500 bytes (byte offsets 0-499, inclusive):
//        bytes=0-499
//    -  The second 500 bytes (byte offsets 500-999, inclusive):
//         bytes=500-999
//
// Additional examples, assuming a representation of length 10000:
//    The final 500 bytes (byte offsets 9500-9999, inclusive):
//         bytes=-500
//    Or:
//         bytes=9500-
//    -  The first and last bytes only (bytes 0 and 9999):
//         bytes=0-0,-1
//    -  Other valid (but not canonical) specifications of the second 500
//       bytes (byte offsets 500-999, inclusive):
//         bytes=500-600,601-999
//         bytes=500-700,601-999

#[test]
fn test1() {
    let http_range = parse("bytes=0-499", 10000).unwrap();
    assert_eq!(
        http_range,
        HttpRange {
            ranges: vec![ByteRange { start: 0, end: 499 }],
            complete_length: None
        }
    );
}

#[test]
fn complete_length_unknown() {
    let http_range = parse("bytes=0-499/*", 10000).unwrap();
    assert_eq!(
        http_range,
        HttpRange {
            ranges: vec![ByteRange { start: 0, end: 499 }],
            complete_length: Some(CompleteLength::Unknown)
        }
    );
}

#[test]
fn complete_length_test2() {
    let http_range = parse("bytes=0-499/8000", 10000).unwrap();
    assert_eq!(
        http_range,
        HttpRange {
            ranges: vec![ByteRange { start: 0, end: 499 }],
            complete_length: Some(CompleteLength::Representation(8000))
        }
    );
}

#[test]
fn test2() {
    let http_range = parse("bytes=500-999", 10000).unwrap();
    assert_eq!(
        http_range,
        HttpRange {
            ranges: vec![ByteRange { start: 500, end: 999 }],
            complete_length: None
        }
    );
}

#[test]
fn test3() {
    let http_range = parse("bytes=-500", 10000).unwrap();
    assert_eq!(
        http_range,
        HttpRange {
            ranges: vec![ByteRange { start: 9500, end: 9999 }],
            complete_length: None
        }
    );
}

#[test]
fn test4() {
    let http_range = parse("bytes=9500-", 10000).unwrap();
    assert_eq!(
        http_range,
        HttpRange {
            ranges: vec![ByteRange { start: 9500, end: 9999 }],
            complete_length: None
        }
    );
}

#[test]
fn test5() {
    let http_range = parse("bytes=0-0,-1", 10000).unwrap();
    assert_eq!(
        http_range,
        HttpRange {
            ranges: vec![
                ByteRange { start: 0, end: 0 },
                ByteRange { start: 9999, end: 9999 }
            ],
            complete_length: None
        }
    );
}

#[test]
fn merge_test6() {
    let http_range = parse("bytes=500-600,601-999", 10000).unwrap();
    assert_eq!(
        http_range,
        HttpRange {
            ranges: vec![ByteRange { start: 500, end: 999 }],
            complete_length: None
        }
    );
}

#[test]
fn merge_test7() {
    let http_range = parse("bytes=601-999,500-600", 10000).unwrap();
    assert_eq!(
        http_range,
        HttpRange {
            ranges: vec![ByteRange { start: 500, end: 999 }],
            complete_length: None
        }
    );
}

#[test]
fn merge_test8() {
    let http_range = parse("bytes=500-700,601-999", 10000).unwrap();
    assert_eq!(
        http_range,
        HttpRange {
            ranges: vec![ByteRange { start: 500, end: 999 }],
            complete_length: None
        }
    );
}

#[test]
fn merge_test9() {
    let http_range = parse("bytes=601-999,500-700", 10000).unwrap();
    assert_eq!(
        http_range,
        HttpRange {
            ranges: vec![ByteRange { start: 500, end: 999 }],
            complete_length: None
        }
    );
}

#[test]
fn merge_test10() {
    let http_range = parse("bytes=300-400,400-700,601-999", 10000).unwrap();
    assert_eq!(
        http_range,
        HttpRange {
            ranges: vec![ByteRange { start: 300, end: 999 }],
            complete_length: None
        }
    );
}
