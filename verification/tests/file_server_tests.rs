use poncu::file_server::{
    blank_response, file_info, file_send, file_service, range_not_satisfiable, send_error_403,
    send_error_404, send_error_500, send_file_full, send_file_range, target_file_name, Method,
    SendPlan, ServicePlan,
};
use poncu::http_range::ByteRange;

#[test]
fn target_strips_slashes() {
    assert_eq!(target_file_name("/index.html").unwrap(), "index.html");
    assert_eq!(target_file_name("/a/b.txt").unwrap(), "ab.txt");
    assert_eq!(target_file_name("file.bin").unwrap(), "file.bin");
}

#[test]
fn target_rejects_unusable_paths() {
    assert!(target_file_name("").is_none());
    assert!(target_file_name("/").is_none());
    assert!(target_file_name("//").is_none());
    assert!(target_file_name("/.").is_none());
    assert!(target_file_name("/..").is_none());
}

#[test]
fn unknown_method_is_not_found() {
    match file_service(Method::Other, "/index.html") {
        ServicePlan::Respond(r) => {
            assert_eq!(r.status, 404);
            assert!(r.headers.is_empty());
            assert!(r.body.is_empty());
        }
        ServicePlan::Probe(_) => panic!("expected a response"),
    }
}

#[test]
fn empty_path_is_forbidden() {
    match file_service(Method::Get, "/") {
        ServicePlan::Respond(r) => assert_eq!(r.status, 403),
        ServicePlan::Probe(_) => panic!("expected a response"),
    }
}

#[test]
fn good_path_is_probed() {
    match file_service(Method::Head, "/notes.txt") {
        ServicePlan::Probe(name) => assert_eq!(name, "notes.txt"),
        ServicePlan::Respond(_) => panic!("expected a probe"),
    }
}

#[test]
fn head_reports_length_only() {
    let r = file_info(Some(1000));
    assert_eq!(r.status, 200);
    assert_eq!(r.headers.len(), 2);
    assert_eq!(r.headers[0].0, "Accept-Ranges");
    assert_eq!(r.headers[0].1, "bytes");
    assert_eq!(r.headers[1].0, "Content-Length");
    assert_eq!(r.headers[1].1, "1000");
    assert!(r.body.is_empty());
}

#[test]
fn head_on_missing_file_is_not_found() {
    let r = file_info(None);
    assert_eq!(r.status, 404);
    assert!(r.body.is_empty());
}

#[test]
fn get_on_missing_file_is_not_found() {
    match file_send(None, Some("bytes=0-1")) {
        SendPlan::Respond(r) => assert_eq!(r.status, 404),
        _ => panic!("expected a response"),
    }
}

#[test]
fn get_without_range_reads_whole_file() {
    assert!(matches!(file_send(Some(1000), None), SendPlan::ReadFull));
}

#[test]
fn get_with_range_reads_first_span() {
    match file_send(Some(1000), Some("bytes=500-999")) {
        SendPlan::ReadSpan(range, total) => {
            assert_eq!(range, ByteRange { start: 500, end: 999 });
            assert_eq!(total, 1000);
        }
        _ => panic!("expected a span read"),
    }
}

#[test]
fn get_serves_first_range_of_several() {
    match file_send(Some(10000), Some("bytes=20000-30000,0-499")) {
        SendPlan::ReadSpan(range, total) => {
            assert_eq!(range, ByteRange { start: 0, end: 499 });
            assert_eq!(total, 10000);
        }
        _ => panic!("expected a span read"),
    }
}

#[test]
fn get_with_range_past_end_is_unsatisfiable() {
    match file_send(Some(1000), Some("bytes=2000-3000")) {
        SendPlan::Respond(r) => {
            assert_eq!(r.status, 416);
            assert_eq!(r.headers.len(), 2);
            assert_eq!(r.headers[0].0, "Accept-Ranges");
            assert_eq!(r.headers[0].1, "bytes");
            assert_eq!(r.headers[1].0, "Content-Range");
            assert_eq!(r.headers[1].1, "bytes */1000");
            assert!(r.body.is_empty());
        }
        _ => panic!("expected a response"),
    }
}

#[test]
fn get_with_malformed_range_is_unsatisfiable() {
    match file_send(Some(1000), Some("bytes=oops")) {
        SendPlan::Respond(r) => assert_eq!(r.status, 416),
        _ => panic!("expected a response"),
    }
}

#[test]
fn full_body_response() {
    let contents = vec![7u8; 1000];
    let r = send_file_full(contents.clone());
    assert_eq!(r.status, 200);
    assert_eq!(r.headers.len(), 2);
    assert_eq!(r.headers[0].0, "Accept-Ranges");
    assert_eq!(r.headers[0].1, "bytes");
    assert_eq!(r.headers[1].0, "Content-Type");
    assert_eq!(r.headers[1].1, "text/html; charset=utf-8");
    assert_eq!(r.body, contents);
}

#[test]
fn partial_body_response() {
    let body = vec![1u8; 500];
    let r = send_file_range(ByteRange { start: 500, end: 999 }, 1000, body.clone());
    assert_eq!(r.status, 206);
    assert_eq!(r.headers.len(), 3);
    assert_eq!(r.headers[0].0, "Accept-Ranges");
    assert_eq!(r.headers[0].1, "bytes");
    assert_eq!(r.headers[1].0, "Content-Range");
    assert_eq!(r.headers[1].1, "bytes 500-999/1000");
    assert_eq!(r.headers[2].0, "Content-Type");
    assert_eq!(r.headers[2].1, "text/html; charset=utf-8");
    assert_eq!(r.body, body);
}

#[test]
fn error_responses_are_blank() {
    assert_eq!(send_error_403().status, 403);
    assert_eq!(send_error_404().status, 404);
    assert_eq!(send_error_500().status, 500);
    let r = blank_response(418);
    assert_eq!(r.status, 418);
    assert!(r.headers.is_empty());
    assert!(r.body.is_empty());
}

#[test]
fn unsatisfiable_response_names_total() {
    let r = range_not_satisfiable(12345);
    assert_eq!(r.status, 416);
    assert_eq!(r.headers[1].1, "bytes */12345");
}
