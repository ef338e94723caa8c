//! Decision logic of the range-aware file service: dispatch by method,
//! resolution of the request path to a file name, and assembly of each
//! response from the length-probe and read results that the
//! surrounding I/O layer supplies. Every function here is pure; the
//! caller performs the file system and network work between the steps.

use crate::http_range::{
    is_range_satisfiable, lemma_first_range_satisfiable, parse, spec_parse, ByteRange,
};
use crate::text::{append_u64, chars_of, dec_rep};
use vstd::prelude::*;

verus! {

/// The HTTP methods the file service distinguishes.
#[derive(Clone, Copy, Debug, PartialEq, Eq, Structural)]
pub enum Method {
    Head,
    Get,
    Other,
}

/// One HTTP response, ready for the transport: a status code, header
/// pairs in order, and the body bytes.
#[derive(Debug)]
pub struct HttpResponse {
    pub status: u16,
    pub headers: Vec<(String, String)>,
    pub body: Vec<u8>,
}

/// A response with the given status and nothing else.
pub open spec fn is_blank_response(r: HttpResponse, status: u16) -> bool {
    &&& r.status == status
    &&& r.headers@.len() == 0
    &&& r.body@.len() == 0
}

/// The `416 Range Not Satisfiable` response for a resource of `total`
/// bytes: it advertises byte ranges and names the total length alone.
pub open spec fn is_unsatisfiable_response(r: HttpResponse, total: u64) -> bool {
    &&& r.status == 416
    &&& r.headers@.len() == 2
    &&& r.headers@[0].0@ == "Accept-Ranges"@
    &&& r.headers@[0].1@ == "bytes"@
    &&& r.headers@[1].0@ == "Content-Range"@
    &&& r.headers@[1].1@ == "bytes */"@ + dec_rep(total as nat)
    &&& r.body@.len() == 0
}

/// A blank response carrying only a status code.
pub fn blank_response(status: u16) -> (r: HttpResponse)
    ensures
        is_blank_response(r, status),
{
    HttpResponse { status, headers: Vec::new(), body: Vec::new() }
}

/// The `403 Forbidden` response.
pub fn send_error_403() -> (r: HttpResponse)
    ensures
        is_blank_response(r, 403),
{
    blank_response(403)
}

/// The `404 Not Found` response.
pub fn send_error_404() -> (r: HttpResponse)
    ensures
        is_blank_response(r, 404),
{
    blank_response(404)
}

/// The `500 Internal Server Error` response, for any read or seek
/// failure while a response body is being built.
pub fn send_error_500() -> (r: HttpResponse)
    ensures
        is_blank_response(r, 500),
{
    blank_response(500)
}

/// The request path with every slash removed.
pub open spec fn remove_slashes(s: Seq<char>) -> Seq<char>
    decreases s.len(),
{
    if s.len() == 0 {
        s
    } else if s.last() == '/' {
        remove_slashes(s.drop_last())
    } else {
        remove_slashes(s.drop_last()).push(s.last())
    }
}

/// What a request path names: the path stripped of slashes, provided
/// that leaves a usable file name. An empty remainder and the bare
/// `.` and `..` entries name no file.
pub open spec fn spec_target(s: Seq<char>) -> Option<Seq<char>> {
    let t = remove_slashes(s);
    if t.len() == 0 || t == seq!['.'] || t == seq!['.', '.'] {
        None
    } else {
        Some(t)
    }
}

/// Relies on std's `String::push`: it appends exactly the one
/// character to the string.
#[verifier::external_body]
fn push_char(s: &mut String, c: char)
    ensures
        final(s)@ == old(s)@.push(c),
{
    s.push(c)
}

/// Resolves a request path to the file name it names, or nothing when
/// the path names no usable file.
pub fn target_file_name(path: &str) -> (r: Option<String>)
    ensures
        (match r {
            Some(name) => spec_target(path@) == Some(name@),
            None => spec_target(path@) is None,
        }),
{
    let chars = chars_of(path);
    let mut t: Vec<char> = Vec::new();
    let mut i: usize = 0;
    while i < chars.len()
        invariant
            i <= chars@.len(),
            chars@ == path@,
            t@ == remove_slashes(chars@.take(i as int)),
        decreases chars@.len() - i,
    {
        proof {
            assert(chars@.take(i + 1).drop_last() =~= chars@.take(i as int));
            assert(chars@.take(i + 1).last() == chars@[i as int]);
        }
        if chars[i] != '/' {
            t.push(chars[i]);
        }
        i = i + 1;
    }
    proof {
        assert(chars@.take(chars@.len() as int) =~= chars@);
    }
    if t.len() == 0 {
        return None;
    }
    if t.len() == 1 && t[0] == '.' {
        proof {
            assert(t@ =~= seq!['.']);
        }
        return None;
    }
    if t.len() == 2 && t[0] == '.' && t[1] == '.' {
        proof {
            assert(t@ =~= seq!['.', '.']);
        }
        return None;
    }
    proof {
        assert(t@ != seq!['.']) by {
            if t@ =~= seq!['.'] {
                assert(t@.len() == 1 && t@[0] == '.');
            }
        }
        assert(t@ != seq!['.', '.']) by {
            if t@ =~= seq!['.', '.'] {
                assert(t@.len() == 2 && t@[0] == '.' && t@[1] == '.');
            }
        }
    }
    let mut name = String::new();
    let mut k: usize = 0;
    while k < t.len()
        invariant
            k <= t@.len(),
            name@ == t@.take(k as int),
        decreases t@.len() - k,
    {
        push_char(&mut name, t[k]);
        proof {
            assert(name@ =~= t@.take(k + 1));
        }
        k = k + 1;
    }
    proof {
        assert(name@ =~= t@);
    }
    Some(name)
}

/// The first step of serving a request: either a response that needs
/// no look at the disk, or the file whose length must be probed.
pub enum ServicePlan {
    Respond(HttpResponse),
    Probe(String),
}

/// Dispatches a request: `HEAD` and `GET` go on to a probe of the file
/// the path names, any other method is answered `404`, and a path that
/// names no usable file is answered `403`.
pub fn file_service(method: Method, path: &str) -> (p: ServicePlan)
    ensures
        (match method {
            Method::Other => p matches ServicePlan::Respond(r) && is_blank_response(r, 404),
            _ => match spec_target(path@) {
                None => p matches ServicePlan::Respond(r) && is_blank_response(r, 403),
                Some(t) => p matches ServicePlan::Probe(name) && name@ == t,
            },
        }),
{
    match method {
        Method::Other => ServicePlan::Respond(send_error_404()),
        _ => match target_file_name(path) {
            None => ServicePlan::Respond(send_error_403()),
            Some(name) => ServicePlan::Probe(name),
        },
    }
}

/// Answers a `HEAD` request from the probe of the file's length: the
/// length in a `200` with no body, or a `404` when the path does not
/// name a readable regular file.
pub fn file_info(probe: Option<u64>) -> (r: HttpResponse)
    ensures
        (match probe {
            Some(len) => {
                &&& r.status == 200
                &&& r.headers@.len() == 2
                &&& r.headers@[0].0@ == "Accept-Ranges"@
                &&& r.headers@[0].1@ == "bytes"@
                &&& r.headers@[1].0@ == "Content-Length"@
                &&& r.headers@[1].1@ == dec_rep(len as nat)
                &&& r.body@.len() == 0
            },
            None => is_blank_response(r, 404),
        }),
{
    match probe {
        None => send_error_404(),
        Some(len) => {
            let mut headers: Vec<(String, String)> = Vec::new();
            headers.push((String::from_str("Accept-Ranges"), String::from_str("bytes")));
            let mut v = String::new();
            append_u64(&mut v, len);
            headers.push((String::from_str("Content-Length"), v));
            HttpResponse { status: 200, headers, body: Vec::new() }
        },
    }
}

/// The second step of a `GET`: either a finished response, or the read
/// the caller must perform — the whole file, or one byte span of it.
pub enum SendPlan {
    Respond(HttpResponse),
    ReadFull,
    ReadSpan(ByteRange, u64),
}

/// The `416` response for a resource of `total` bytes.
pub fn range_not_satisfiable(total: u64) -> (r: HttpResponse)
    ensures
        is_unsatisfiable_response(r, total),
{
    let mut headers: Vec<(String, String)> = Vec::new();
    headers.push((String::from_str("Accept-Ranges"), String::from_str("bytes")));
    let mut v = String::from_str("bytes */");
    append_u64(&mut v, total);
    headers.push((String::from_str("Content-Range"), v));
    HttpResponse { status: 416, headers, body: Vec::new() }
}

/// Answers a `GET` request up to the point where bytes must be read:
/// `404` when the file cannot be probed; the whole file when no range
/// header came; otherwise the header is resolved against the probed
/// length, and either its first range is to be read or the request is
/// refused with a `416` — when the header is malformed or when none of
/// its ranges fits inside the file.
pub fn file_send(probe: Option<u64>, range_header: Option<&str>) -> (p: SendPlan)
    ensures
        (match probe {
            None => p matches SendPlan::Respond(r) && is_blank_response(r, 404),
            Some(len) => match range_header {
                None => p == SendPlan::ReadFull,
                Some(h) => match spec_parse(h@, len) {
                    None => p matches SendPlan::Respond(r) && is_unsatisfiable_response(r, len),
                    Some(m) => {
                        if exists|i: int|
                            0 <= i < m.0.len() && (#[trigger] m.0[i]).satisfiable(len) {
                            p == SendPlan::ReadSpan(m.0[0], len) && m.0[0].satisfiable(len)
                        } else {
                            p matches SendPlan::Respond(r) && is_unsatisfiable_response(r, len)
                        }
                    },
                },
            },
        }),
{
    let len = match probe {
        None => {
            return SendPlan::Respond(send_error_404());
        },
        Some(len) => len,
    };
    let header = match range_header {
        None => {
            return SendPlan::ReadFull;
        },
        Some(h) => h,
    };
    match parse(header, len) {
        None => SendPlan::Respond(range_not_satisfiable(len)),
        Some(http_range) => {
            if is_range_satisfiable(&http_range, len) {
                proof {
                    lemma_first_range_satisfiable(http_range.ranges@, len);
                }
                SendPlan::ReadSpan(http_range.ranges[0], len)
            } else {
                SendPlan::Respond(range_not_satisfiable(len))
            }
        },
    }
}

/// The `200` response that carries a whole file.
pub fn send_file_full(contents: Vec<u8>) -> (r: HttpResponse)
    ensures
        r.status == 200,
        r.headers@.len() == 2,
        r.headers@[0].0@ == "Accept-Ranges"@,
        r.headers@[0].1@ == "bytes"@,
        r.headers@[1].0@ == "Content-Type"@,
        r.headers@[1].1@ == "text/html; charset=utf-8"@,
        r.body@ == contents@,
{
    let mut headers: Vec<(String, String)> = Vec::new();
    headers.push((String::from_str("Accept-Ranges"), String::from_str("bytes")));
    headers.push((String::from_str("Content-Type"), String::from_str(
        "text/html; charset=utf-8",
    )));
    HttpResponse { status: 200, headers, body: contents }
}

/// The `206` response that carries one byte span of a file of `total`
/// bytes. The caller hands in exactly the bytes of the span.
pub fn send_file_range(range: ByteRange, total: u64, body: Vec<u8>) -> (r: HttpResponse)
    requires
        range.satisfiable(total),
        body@.len() == range.end - range.start + 1,
    ensures
        r.status == 206,
        r.headers@.len() == 3,
        r.headers@[0].0@ == "Accept-Ranges"@,
        r.headers@[0].1@ == "bytes"@,
        r.headers@[1].0@ == "Content-Range"@,
        r.headers@[1].1@ == "bytes "@ + dec_rep(range.start as nat) + "-"@ + dec_rep(
            range.end as nat,
        ) + "/"@ + dec_rep(total as nat),
        r.headers@[2].0@ == "Content-Type"@,
        r.headers@[2].1@ == "text/html; charset=utf-8"@,
        r.body@ == body@,
{
    let mut headers: Vec<(String, String)> = Vec::new();
    headers.push((String::from_str("Accept-Ranges"), String::from_str("bytes")));
    let mut v = String::from_str("bytes ");
    append_u64(&mut v, range.start);
    v.append("-");
    append_u64(&mut v, range.end);
    v.append("/");
    append_u64(&mut v, total);
    headers.push((String::from_str("Content-Range"), v));
    headers.push((String::from_str("Content-Type"), String::from_str(
        "text/html; charset=utf-8",
    )));
    HttpResponse { status: 206, headers, body }
}

} // verus!
