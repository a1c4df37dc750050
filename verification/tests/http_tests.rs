use minihttp::headers::Headers;
use minihttp::http::{
    body_length, build_request, parse_response, parse_status_line, prepare_request, split_url,
    ParseFailure, RequestError,
};

fn bv(s: &str) -> Vec<u8> {
    s.as_bytes().to_vec()
}

#[test]
fn full_response_parses() {
    let data = b"HTTP/1.1 200 OK\nContent-Length: 5\n\nhello";
    let resp = parse_response(data).unwrap();
    assert_eq!(resp.status_code, 200);
    assert_eq!(resp.body.as_slice(), b"hello");
    assert!(!resp.premature_eof);
    let cl = resp.headers.get(b"content-length").unwrap();
    assert_eq!(cl.as_slice(), b"5");
}

#[test]
fn truncated_body_is_success_with_premature_eof() {
    let data = b"HTTP/1.1 200 OK\nContent-Length: 5\n\nhe";
    let resp = parse_response(data).unwrap();
    assert_eq!(resp.status_code, 200);
    assert_eq!(resp.body.as_slice(), b"he");
    assert!(resp.premature_eof);
}

#[test]
fn crlf_line_endings_parse_too() {
    let data = b"HTTP/1.1 200 OK\r\nContent-Length: 5\r\n\r\nhello";
    let resp = parse_response(data).unwrap();
    assert_eq!(resp.status_code, 200);
    assert_eq!(resp.body.as_slice(), b"hello");
    assert!(!resp.premature_eof);
}

#[test]
fn extra_body_bytes_are_ignored() {
    let data = b"HTTP/1.1 200 OK\nContent-Length: 3\n\nabcdef";
    let resp = parse_response(data).unwrap();
    assert_eq!(resp.body.as_slice(), b"abc");
    assert!(!resp.premature_eof);
}

#[test]
fn zero_content_length() {
    let data = b"HTTP/1.1 204 No Content\nContent-Length: 0\n\n";
    let resp = parse_response(data).unwrap();
    assert_eq!(resp.status_code, 204);
    assert_eq!(resp.body.as_slice(), b"");
    assert!(!resp.premature_eof);
}

#[test]
fn missing_content_length_is_parse_error() {
    let data = b"HTTP/1.1 200 OK\nServer: x\n\nhello";
    let err = parse_response(data).unwrap_err();
    assert_eq!(
        err,
        RequestError::ResponseParseError(ParseFailure::NoContentLength)
    );
}

#[test]
fn bad_content_length_is_parse_error() {
    let data = b"HTTP/1.1 200 OK\nContent-Length: five\n\nhello";
    let err = parse_response(data).unwrap_err();
    assert_eq!(
        err,
        RequestError::ResponseParseError(ParseFailure::ContentLengthNotNumber)
    );
}

#[test]
fn empty_stream_is_first_line_missing() {
    let err = parse_response(b"").unwrap_err();
    assert_eq!(
        err,
        RequestError::ResponseParseError(ParseFailure::FirstLineMissing)
    );
}

#[test]
fn status_line_without_second_field() {
    let err = parse_response(b"HTTP/1.1\nContent-Length: 0\n\n").unwrap_err();
    assert_eq!(
        err,
        RequestError::ResponseParseError(ParseFailure::StatusCodeMissing)
    );
}

#[test]
fn status_code_not_a_number() {
    let err = parse_response(b"HTTP/1.1 abc OK\nContent-Length: 0\n\n").unwrap_err();
    assert_eq!(
        err,
        RequestError::ResponseParseError(ParseFailure::StatusCodeNotNumber)
    );
}

#[test]
fn status_code_too_large_is_not_a_number() {
    let err = parse_status_line(b"HTTP/1.1 65536 OK").unwrap_err();
    assert_eq!(
        err,
        RequestError::ResponseParseError(ParseFailure::StatusCodeNotNumber)
    );
    assert_eq!(parse_status_line(b"HTTP/1.1 65535 OK").unwrap(), 65535);
}

#[test]
fn status_code_with_leading_plus() {
    assert_eq!(parse_status_line(b"HTTP/1.1 +200 OK").unwrap(), 200);
}

#[test]
fn bad_header_line_is_parse_error() {
    let data = b"HTTP/1.1 200 OK\nbroken header line\n\nhello";
    let err = parse_response(data).unwrap_err();
    assert_eq!(
        err,
        RequestError::ResponseParseError(ParseFailure::BadHeader)
    );
}

#[test]
fn headers_arrive_in_order_and_first_wins() {
    let data = b"HTTP/1.1 200 OK\nX-N: one\nx-n: two\nContent-Length: 0\n\n";
    let resp = parse_response(data).unwrap();
    let v = resp.headers.get(b"X-N").unwrap();
    assert_eq!(v.as_slice(), b"one");
}

#[test]
fn body_length_reads_content_length() {
    let mut hs = Headers::new();
    hs.add(bv("content-LENGTH"), bv("42"));
    assert_eq!(body_length(&hs).unwrap(), 42);
}

#[test]
fn body_length_without_header() {
    let hs = Headers::new();
    assert_eq!(
        body_length(&hs).unwrap_err(),
        RequestError::ResponseParseError(ParseFailure::NoContentLength)
    );
}

#[test]
fn split_url_with_path() {
    let (authority, path) = split_url(b"http://host/a/b").unwrap();
    assert_eq!(authority.as_slice(), b"host");
    assert_eq!(path.as_slice(), b"/a/b");
}

#[test]
fn split_url_without_path_defaults_to_slash() {
    let (authority, path) = split_url(b"http://host").unwrap();
    assert_eq!(authority.as_slice(), b"host");
    assert_eq!(path.as_slice(), b"/");
}

#[test]
fn split_url_keeps_port_in_authority() {
    let (authority, path) = split_url(b"http://127.0.0.1:8080/file").unwrap();
    assert_eq!(authority.as_slice(), b"127.0.0.1:8080");
    assert_eq!(path.as_slice(), b"/file");
}

#[test]
fn non_http_url_is_invalid() {
    assert_eq!(split_url(b"https://host/").unwrap_err(), RequestError::InvalidUrl);
    assert_eq!(split_url(b"ftp://host/").unwrap_err(), RequestError::InvalidUrl);
    assert_eq!(split_url(b"host/plain").unwrap_err(), RequestError::InvalidUrl);
    assert_eq!(split_url(b"").unwrap_err(), RequestError::InvalidUrl);
}

#[test]
fn prepare_request_rejects_bad_url_before_any_work() {
    let err = prepare_request(b"gopher://host", Headers::new()).unwrap_err();
    assert_eq!(err, RequestError::InvalidUrl);
}

#[test]
fn prepare_request_builds_exact_bytes() {
    let mut hs = Headers::new();
    hs.add(bv("Range"), bv("bytes=0-"));
    let (authority, request) = prepare_request(b"http://example.com/index.html", hs).unwrap();
    assert_eq!(authority.as_slice(), b"example.com");
    assert_eq!(
        request.as_slice(),
        b"GET /index.html HTTP/1.1\nRange: bytes=0-\nHost: example.com\n\n".as_slice()
    );
}

#[test]
fn build_request_with_empty_headers() {
    let hs = Headers::new();
    let req = build_request(b"/", &hs);
    assert_eq!(req.as_slice(), b"GET / HTTP/1.1\n\n\n");
}

#[test]
fn error_messages_match_wording() {
    assert_eq!(RequestError::InvalidUrl.message(), "The URL is invalid");
    assert_eq!(RequestError::ConnectionFailed.message(), "Connection failed");
    assert_eq!(RequestError::WriteError.message(), "Error writing request");
    assert_eq!(RequestError::ReadError.message(), "Error reading response");
    assert_eq!(
        RequestError::ResponseParseError(ParseFailure::NoContentLength).message(),
        "Error parsing response: No Content-Length header present"
    );
    assert_eq!(
        RequestError::ResponseParseError(ParseFailure::StatusCodeNotNumber).message(),
        "Error parsing response: Status code isn't a number"
    );
}
