use http_server::request::{parse_request, HttpMethod, HttpRequestBuilder, ParseError};
use http_server::response::HttpResponseBuilder;
use http_server::routing::{file_path, file_response, not_found_response, route, Route};
use http_server::text::{parse_length, trim_bytes};

fn answer(raw: &[u8]) -> Vec<u8> {
    let (req, _) = match parse_request(raw) {
        Ok(x) => x,
        Err(e) => panic!("parse failed: {:?}", e),
    };
    match route(&req) {
        Route::Respond(r) => r.as_bytes(),
        Route::ServeFile(_) => file_response(None).as_bytes(),
    }
}

fn split_response(bytes: &[u8]) -> (String, Vec<String>, Vec<u8>) {
    let eol = bytes.windows(2).position(|w| w == b"\r\n").expect("status line");
    let status = String::from_utf8(bytes[..eol].to_vec()).unwrap();
    let rest = &bytes[eol + 2..];
    let sep = rest.windows(4).position(|w| w == b"\r\n\r\n").expect("blank line");
    let block = String::from_utf8(rest[..sep].to_vec()).unwrap();
    let headers = block.split("\r\n").filter(|l| !l.is_empty()).map(|l| l.to_string()).collect();
    (status, headers, rest[sep + 4..].to_vec())
}

#[test]
fn root_gives_ok_without_body() {
    let out = answer(b"GET / HTTP/1.1\r\nHost: x\r\n\r\n");
    assert!(out.starts_with(b"HTTP/1.1 200 OK\r\n"));
    let (_, _, body) = split_response(&out);
    assert!(body.is_empty());
    assert_eq!(out, b"HTTP/1.1 200 OK\r\n\r\n\r\n".to_vec());
}

#[test]
fn echo_returns_rest_of_path() {
    let out = answer(b"GET /echo/abc HTTP/1.1\r\n\r\n");
    let (status, headers, body) = split_response(&out);
    assert_eq!(status, "HTTP/1.1 200 OK");
    assert_eq!(body, b"abc".to_vec());
    assert!(headers.contains(&"Content-Type: text/plain".to_string()));
    assert!(headers.contains(&"Content-Length: 3".to_string()));
    assert_eq!(headers.len(), 2);
}

#[test]
fn echo_strips_only_the_leading_prefix() {
    let out = answer(b"GET /echo/x/echo/y HTTP/1.1\r\n\r\n");
    let (_, _, body) = split_response(&out);
    assert_eq!(body, b"x/echo/y".to_vec());
}

#[test]
fn user_agent_is_reflected() {
    let out = answer(b"GET /user-agent HTTP/1.1\r\nUser-Agent: test/1.0\r\n\r\n");
    let (status, headers, body) = split_response(&out);
    assert_eq!(status, "HTTP/1.1 200 OK");
    assert_eq!(body, b"test/1.0".to_vec());
    assert!(headers.contains(&"Content-Length: 8".to_string()));
}

#[test]
fn user_agent_lookup_ignores_case() {
    let out = answer(b"GET /user-agent HTTP/1.1\r\nuser-agent: curl\r\n\r\n");
    let (_, _, body) = split_response(&out);
    assert_eq!(body, b"curl".to_vec());
}

#[test]
fn missing_user_agent_is_a_server_error() {
    let out = answer(b"GET /user-agent HTTP/1.1\r\n\r\n");
    assert!(out.starts_with(b"HTTP/1.1 500 Internal Server Error\r\n"));
}

#[test]
fn missing_file_is_not_found() {
    let (req, _) = parse_request(b"GET /files/missing.txt HTTP/1.1\r\n\r\n").unwrap();
    match route(&req) {
        Route::ServeFile(name) => assert_eq!(name, "missing.txt"),
        Route::Respond(_) => panic!("expected a file lookup"),
    }
    let out = file_response(None).as_bytes();
    assert!(out.starts_with(b"HTTP/1.1 404 Not Found"));
    assert_eq!(out, answer(b"GET /files/missing.txt HTTP/1.1\r\n\r\n"));
}

#[test]
fn found_file_is_octet_stream() {
    let out = file_response(Some("hello".to_string())).as_bytes();
    let (status, headers, body) = split_response(&out);
    assert_eq!(status, "HTTP/1.1 200 OK");
    assert!(headers.contains(&"Content-Type: application/octet-stream".to_string()));
    assert!(headers.contains(&"Content-Length: 5".to_string()));
    assert_eq!(body, b"hello".to_vec());
}

#[test]
fn file_path_joins_directory() {
    assert_eq!(file_path(Some("/tmp".to_string()), "a.txt".to_string()), "/tmp/a.txt");
    assert_eq!(file_path(None, "a.txt".to_string()), "a.txt");
}

#[test]
fn unknown_path_is_not_found_with_empty_body() {
    let out = answer(b"GET /unknown HTTP/1.1\r\n\r\n");
    let (status, _, body) = split_response(&out);
    assert_eq!(status, "HTTP/1.1 404 Not Found");
    assert!(body.is_empty());
    assert_eq!(out, not_found_response().as_bytes());
}

#[test]
fn parser_reads_exactly_the_declared_body() {
    let raw = b"POST /submit HTTP/1.1\r\nContent-Length: 3\r\n\r\nabcGET / HTTP/1.1\r\n\r\n";
    let (req, used) = parse_request(raw).unwrap();
    assert_eq!(req.body, Some("abc".to_string()));
    assert_eq!(used, raw.len() - b"GET / HTTP/1.1\r\n\r\n".len());
    let (again, used_again) = parse_request(&raw[..used]).unwrap();
    assert_eq!(again.body, Some("abc".to_string()));
    assert_eq!(used_again, used);
    assert_eq!(req.method, HttpMethod::Post);
    assert_eq!(req.path, "/submit");
    assert_eq!(req.version, "HTTP/1.1");
}

#[test]
fn zero_or_missing_length_means_no_body() {
    let (a, used_a) = parse_request(b"GET / HTTP/1.1\r\nContent-Length: 0\r\n\r\nxyz").unwrap();
    assert_eq!(a.body, None);
    assert_eq!(used_a, b"GET / HTTP/1.1\r\nContent-Length: 0\r\n\r\n".len());
    let (b, _) = parse_request(b"GET / HTTP/1.1\r\nHost: x\r\n\r\nxyz").unwrap();
    assert_eq!(b.body, None);
    let (c, _) = parse_request(b"GET / HTTP/1.1\r\nContent-Length: abc\r\n\r\nxyz").unwrap();
    assert_eq!(c.body, None);
}

#[test]
fn content_length_name_is_case_insensitive_and_last_wins() {
    let raw = b"PUT /x HTTP/1.1\r\ncontent-LENGTH: 9\r\nContent-Length: 2\r\n\r\nhello";
    let (req, used) = parse_request(raw).unwrap();
    assert_eq!(req.body, Some("he".to_string()));
    assert_eq!(used, raw.len() - 3);
    assert_eq!(req.headers.len(), 2);
}

#[test]
fn repeated_header_overwrites_in_place() {
    let raw = b"GET / HTTP/1.1\r\nA: 1\r\nB: 2\r\nA:  3 \r\n\r\n";
    let (req, _) = parse_request(raw).unwrap();
    assert_eq!(
        req.headers,
        vec![("A".to_string(), "3".to_string()), ("B".to_string(), "2".to_string())]
    );
    assert_eq!(req.header("a"), Some("3".to_string()));
    assert_eq!(req.header("C"), None);
}

#[test]
fn bare_line_feeds_are_accepted() {
    let raw = b"DELETE /r HTTP/1.0\nX: y\n\n";
    let (req, used) = parse_request(raw).unwrap();
    assert_eq!(req.method, HttpMethod::Delete);
    assert_eq!(req.version, "HTTP/1.0");
    assert_eq!(used, raw.len());
}

#[test]
fn invalid_body_bytes_are_replaced() {
    let (req, _) = parse_request(b"POST / HTTP/1.1\r\nContent-Length: 2\r\n\r\na\xff").unwrap();
    assert_eq!(req.body, Some("a\u{FFFD}".to_string()));
}

#[test]
fn malformed_request_line() {
    assert_eq!(parse_request(b"GET /\r\n\r\n").err(), Some(ParseError::MalformedRequestLine));
    assert_eq!(
        parse_request(b"FETCH / HTTP/1.1\r\n\r\n").err(),
        Some(ParseError::MalformedRequestLine)
    );
    assert_eq!(parse_request(b"get / HTTP/1.1\r\n\r\n").err(), Some(ParseError::MalformedRequestLine));
}

#[test]
fn malformed_header() {
    assert_eq!(
        parse_request(b"GET / HTTP/1.1\r\nno colon here\r\n\r\n").err(),
        Some(ParseError::MalformedHeader)
    );
}

#[test]
fn truncated_requests() {
    assert_eq!(parse_request(b"").err(), Some(ParseError::TruncatedRequest));
    assert_eq!(parse_request(b"GET / HTTP/1.1").err(), Some(ParseError::TruncatedRequest));
    assert_eq!(
        parse_request(b"GET / HTTP/1.1\r\nHost: x\r\n").err(),
        Some(ParseError::TruncatedRequest)
    );
    assert_eq!(
        parse_request(b"POST / HTTP/1.1\r\nContent-Length: 5\r\n\r\nabc").err(),
        Some(ParseError::TruncatedRequest)
    );
}

#[test]
fn method_names() {
    assert_eq!(HttpMethod::from_string("GET"), Some(HttpMethod::Get));
    assert_eq!(HttpMethod::from_string("HEAD"), Some(HttpMethod::Head));
    assert_eq!(HttpMethod::from_string("POST"), Some(HttpMethod::Post));
    assert_eq!(HttpMethod::from_string("PUT"), Some(HttpMethod::Put));
    assert_eq!(HttpMethod::from_string("DELETE"), Some(HttpMethod::Delete));
    assert_eq!(HttpMethod::from_string("CONNECT"), Some(HttpMethod::Connect));
    assert_eq!(HttpMethod::from_string("OPTIONS"), Some(HttpMethod::Options));
    assert_eq!(HttpMethod::from_string("TRACE"), Some(HttpMethod::Trace));
    assert_eq!(HttpMethod::from_string("PATCH"), Some(HttpMethod::Patch));
    assert_eq!(HttpMethod::from_string("Get"), None);
    assert_eq!(HttpMethod::from_string(""), None);
}

#[test]
fn body_length_counts_bytes() {
    let out = HttpResponseBuilder::new().with_body("héllo".to_string()).build().as_bytes();
    let (_, headers, body) = split_response(&out);
    assert!(headers.contains(&"Content-Length: 6".to_string()));
    assert_eq!(body, "héllo".as_bytes().to_vec());
}

#[test]
fn response_bytes_are_exact() {
    let out = HttpResponseBuilder::new()
        .with_status(404, "Not Found".to_string())
        .with_header("X-A".to_string(), "1".to_string())
        .with_body("hi".to_string())
        .with_header("X-A".to_string(), "2".to_string())
        .build()
        .as_bytes();
    assert_eq!(
        out,
        b"HTTP/1.1 404 Not Found\r\nX-A: 2\r\nContent-Length: 2\r\n\r\nhi".to_vec()
    );
}

#[test]
fn setting_body_twice_keeps_one_length_header() {
    let out = HttpResponseBuilder::new()
        .with_body("long body".to_string())
        .with_body("ab".to_string())
        .build()
        .as_bytes();
    assert_eq!(out, b"HTTP/1.1 200 OK\r\nContent-Length: 2\r\n\r\nab".to_vec());
}

#[test]
fn serialising_twice_is_identical() {
    let r = HttpResponseBuilder::new()
        .with_header("A".to_string(), "1".to_string())
        .with_header("B".to_string(), "2".to_string())
        .with_body("x".to_string())
        .build();
    assert_eq!(r.as_bytes(), r.as_bytes());
}

#[test]
fn request_builder_sets_fields() {
    let mut b = HttpRequestBuilder::new();
    b.with_method(HttpMethod::Patch);
    b.with_path("/p".to_string());
    b.with_version("HTTP/1.1".to_string());
    b.with_header("K".to_string(), "v".to_string());
    b.with_header("K".to_string(), "w".to_string());
    b.with_body("data".to_string());
    let r = b.build();
    assert_eq!(r.method, HttpMethod::Patch);
    assert_eq!(r.path, "/p");
    assert_eq!(r.headers, vec![("K".to_string(), "w".to_string())]);
    assert_eq!(r.body, Some("data".to_string()));
}

#[test]
fn length_values() {
    assert_eq!(parse_length(b"42"), 42);
    assert_eq!(parse_length(b"0"), 0);
    assert_eq!(parse_length(b""), 0);
    assert_eq!(parse_length(b"4x"), 0);
    assert_eq!(parse_length(b"-1"), 0);
    assert_eq!(parse_length(b"99999999999999999999999"), 0);
    assert_eq!(trim_bytes(b" \t a b \r\n"), b"a b");
    assert_eq!(trim_bytes(b"   "), b"");
}

#[test]
fn request_line_splits_on_runs_of_spaces_and_tabs() {
    let (req, _) = parse_request(b"GET\t/a  \t HTTP/1.1 extra\r\n\r\n").unwrap();
    assert_eq!(req.method, HttpMethod::Get);
    assert_eq!(req.path, "/a");
    assert_eq!(req.version, "HTTP/1.1");
    let (lead, _) = parse_request(b"  HEAD /b HTTP/1.0\n\n").unwrap();
    assert_eq!(lead.method, HttpMethod::Head);
    assert_eq!(lead.path, "/b");
}

#[test]
fn request_line_needs_three_non_empty_tokens() {
    assert_eq!(parse_request(b"GET / \n\n").err(), Some(ParseError::MalformedRequestLine));
    assert_eq!(parse_request(b"GET  /\t\r\n\r\n").err(), Some(ParseError::MalformedRequestLine));
    assert_eq!(parse_request(b"\r\n\r\n").err(), Some(ParseError::MalformedRequestLine));
}

#[test]
fn body_length_cannot_be_overridden() {
    let out = HttpResponseBuilder::new()
        .with_body("abc".to_string())
        .with_header("Content-Length".to_string(), "9".to_string())
        .with_header("content-length".to_string(), "7".to_string())
        .build()
        .as_bytes();
    assert_eq!(out, b"HTTP/1.1 200 OK\r\nContent-Length: 3\r\n\r\nabc".to_vec());
}

#[test]
fn earlier_length_headers_are_replaced_by_the_body() {
    let out = HttpResponseBuilder::new()
        .with_header("content-LENGTH".to_string(), "5".to_string())
        .with_header("X".to_string(), "y".to_string())
        .with_body("ab".to_string())
        .build()
        .as_bytes();
    assert_eq!(out, b"HTTP/1.1 200 OK\r\nX: y\r\nContent-Length: 2\r\n\r\nab".to_vec());
}

#[test]
fn length_header_without_body_is_kept() {
    let out = HttpResponseBuilder::new()
        .with_header("Content-Length".to_string(), "0".to_string())
        .build()
        .as_bytes();
    assert_eq!(out, b"HTTP/1.1 200 OK\r\nContent-Length: 0\r\n\r\n".to_vec());
}

#[test]
fn header_lookup_takes_the_last_match() {
    let raw = b"GET /user-agent HTTP/1.1\r\nuser-agent: first\r\nUser-Agent: second\r\n\r\n";
    let (req, _) = parse_request(raw).unwrap();
    assert_eq!(req.header("USER-AGENT"), Some("second".to_string()));
    let (_, _, body) = split_response(&answer(raw));
    assert_eq!(body, b"second".to_vec());
}
