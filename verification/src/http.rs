//! The request/response engine: URL splitting, request construction, and
//! response parsing, all over raw bytes. The caller owns the connection;
//! this module only computes what to send and what the received bytes mean.

use vstd::prelude::*;
use crate::headers::{find_sep, lookup, render, Header, Headers};
use vstd::slice::{slice_subrange, slice_to_vec};

verus! {

/// Why a response failed to parse; each variant names the check that failed.
#[derive(Debug, Clone, Copy, PartialEq, Eq, Structural)]
pub enum ParseFailure {
    /// The stream ended before any status line arrived.
    FirstLineMissing,
    /// The status line has no second space-separated field.
    StatusCodeMissing,
    /// The status code field is not an unsigned number in range.
    StatusCodeNotNumber,
    /// A non-empty header line holds no `": "` separator.
    BadHeader,
    /// No `Content-Length` header is present.
    NoContentLength,
    /// The `Content-Length` value is not an unsigned number in range.
    ContentLengthNotNumber,
}

/// One request's failure. Parsing failures carry the check that failed;
/// connection, write and read failures come from the caller's stream.
#[derive(Debug, Clone, Copy, PartialEq, Eq, Structural)]
pub enum RequestError {
    InvalidUrl,
    ConnectionFailed,
    WriteError,
    ReadError,
    ResponseParseError(ParseFailure),
}

/// The fixed reason text for each parsing failure.
pub open spec fn reason_text(p: ParseFailure) -> Seq<char> {
    match p {
        ParseFailure::FirstLineMissing => "First line missing"@,
        ParseFailure::StatusCodeMissing => "Status code missing"@,
        ParseFailure::StatusCodeNotNumber => "Status code isn't a number"@,
        ParseFailure::BadHeader => "Couldn't parse header"@,
        ParseFailure::NoContentLength => "No Content-Length header present"@,
        ParseFailure::ContentLengthNotNumber => "Content-Length is not a number"@,
    }
}

impl ParseFailure {
    /// The fixed text naming the check that failed.
    pub fn reason(&self) -> (r: &'static str)
        ensures
            r@ == reason_text(*self),
    {
        match self {
            ParseFailure::FirstLineMissing => "First line missing",
            ParseFailure::StatusCodeMissing => "Status code missing",
            ParseFailure::StatusCodeNotNumber => "Status code isn't a number",
            ParseFailure::BadHeader => "Couldn't parse header",
            ParseFailure::NoContentLength => "No Content-Length header present",
            ParseFailure::ContentLengthNotNumber => "Content-Length is not a number",
        }
    }
}

/// The message text for each request failure.
pub open spec fn message_text(e: RequestError) -> Seq<char> {
    match e {
        RequestError::InvalidUrl => "The URL is invalid"@,
        RequestError::ConnectionFailed => "Connection failed"@,
        RequestError::WriteError => "Error writing request"@,
        RequestError::ReadError => "Error reading response"@,
        RequestError::ResponseParseError(p) => "Error parsing response: "@ + reason_text(p),
    }
}

impl RequestError {
    /// A human-readable description of the failure.
    pub fn message(&self) -> (r: String)
        ensures
            r@ == message_text(*self),
    {
        match self {
            RequestError::InvalidUrl => String::from_str("The URL is invalid"),
            RequestError::ConnectionFailed => String::from_str("Connection failed"),
            RequestError::WriteError => String::from_str("Error writing request"),
            RequestError::ReadError => String::from_str("Error reading response"),
            RequestError::ResponseParseError(p) => String::from_str(
                "Error parsing response: ",
            ).concat(p.reason()),
        }
    }
}

/// Position of the first `b` in `s` at or after `from`, if any.
pub open spec fn find_byte_from(s: Seq<u8>, b: u8, from: int) -> Option<int>
    decreases s.len() - from,
{
    if from < 0 || from >= s.len() {
        None
    } else if s[from] == b {
        Some(from)
    } else {
        find_byte_from(s, b, from + 1)
    }
}

/// What `find_byte_from` returns is the leftmost occurrence of `b` at or
/// after `from`, and `None` means there is none.
pub proof fn lemma_find_byte_from_props(s: Seq<u8>, b: u8, from: int)
    requires
        0 <= from,
    ensures
        match find_byte_from(s, b, from) {
            Some(k) => from <= k < s.len() && s[k] == b && (forall|j: int|
                from <= j < k ==> s[j] != b),
            None => forall|j: int| from <= j < s.len() ==> s[j] != b,
        },
    decreases s.len() - from,
{
    if from < 0 || from >= s.len() {
    } else if s[from] == b {
    } else {
        lemma_find_byte_from_props(s, b, from + 1);
    }
}

/// Scans for the first `b` in `s` at or after `from`.
pub fn find_byte(s: &[u8], b: u8, from: usize) -> (r: Option<usize>)
    requires
        from <= s@.len(),
    ensures
        match r {
            Some(i) => from <= i < s@.len() && find_byte_from(s@, b, from as int) == Some(i as int),
            None => find_byte_from(s@, b, from as int) is None,
        },
{
    let n = s.len();
    let mut i: usize = from;
    while i < n
        invariant
            from <= i <= n,
            n == s@.len(),
            find_byte_from(s@, b, from as int) == find_byte_from(s@, b, i as int),
        decreases n - i,
    {
        if s[i] == b {
            return Some(i);
        }
        i = i + 1;
    }
    None
}

/// The byte is an ASCII decimal digit.
pub open spec fn is_digit(b: u8) -> bool {
    48 <= b && b <= 57
}

/// Every byte of `s` is an ASCII decimal digit.
pub open spec fn all_digits(s: Seq<u8>) -> bool {
    forall|i: int| 0 <= i < s.len() ==> is_digit(s[i])
}

/// The number the digit string `s` denotes in decimal.
pub open spec fn digits_val(s: Seq<u8>) -> nat
    decreases s.len(),
{
    if s.len() == 0 {
        0
    } else {
        digits_val(s.drop_last()) * 10 + ((s.last() - 48) as nat)
    }
}

/// A prefix of a digit string denotes no more than the whole string.
pub proof fn lemma_digits_val_take_le(s: Seq<u8>, i: int)
    requires
        0 <= i <= s.len(),
    ensures
        digits_val(s.take(i)) <= digits_val(s),
    decreases s.len(),
{
    if i < s.len() {
        assert(s.drop_last().take(i) =~= s.take(i));
        lemma_digits_val_take_le(s.drop_last(), i);
    } else {
        assert(s.take(i) =~= s);
    }
}

/// The digits of `s` after an optional single leading `+`.
pub open spec fn uint_body(s: Seq<u8>) -> Seq<u8> {
    if s.len() > 0 && s[0] == 43u8 {
        s.drop_first()
    } else {
        s
    }
}

/// `s` parses as an unsigned decimal integer no larger than `max`:
/// optionally a leading `+`, then at least one digit, denoting a value
/// within the bound.
pub open spec fn parses_as_uint(s: Seq<u8>, max: nat) -> bool {
    &&& uint_body(s).len() > 0
    &&& all_digits(uint_body(s))
    &&& digits_val(uint_body(s)) <= max
}

/// Parses `s` as an unsigned decimal integer, rejecting anything that is
/// not an optional `+` followed by one or more digits, and any value
/// above `max`.
pub fn parse_uint(s: &[u8], max: u64) -> (r: Option<u64>)
    ensures
        r is Some <==> parses_as_uint(s@, max as nat),
        r matches Some(v) ==> v == digits_val(uint_body(s@)) && v <= max,
{
    let n = s.len();
    let start: usize = if n > 0 && s[0] == 43u8 {
        1
    } else {
        0
    };
    proof {
        assert(uint_body(s@) =~= s@.skip(start as int));
    }
    if start == n {
        return None;
    }
    let mut acc: u64 = 0;
    let mut i: usize = start;
    while i < n
        invariant
            start <= i <= n,
            n == s@.len(),
            uint_body(s@) == s@.skip(start as int),
            all_digits(s@.subrange(start as int, i as int)),
            acc == digits_val(s@.subrange(start as int, i as int)),
            acc <= max,
        decreases n - i,
    {
        let ghost pre = s@.subrange(start as int, i as int);
        let b = s[i];
        if b < 48 || b > 57 {
            proof {
                assert(uint_body(s@)[i - start] == s@[i as int]);
                assert(!all_digits(uint_body(s@)));
            }
            return None;
        }
        let d = (b - 48) as u64;
        if d > max || acc > (max - d) / 10 {
            proof {
                let cur = s@.subrange(start as int, i + 1);
                assert(cur.drop_last() =~= pre);
                assert(cur.last() == s@[i as int]);
                assert(digits_val(cur) == acc * 10 + d);
                if d > max {
                    assert(acc * 10 + d > max) by (nonlinear_arith)
                        requires
                            d > max,
                            0 <= acc,
                    {}
                } else {
                    assert(acc * 10 + d > max) by (nonlinear_arith)
                        requires
                            acc > (max - d) / 10,
                            d <= max,
                            0 <= d,
                            0 <= acc,
                    {}
                }
                assert(uint_body(s@).take(i + 1 - start) =~= cur);
                lemma_digits_val_take_le(uint_body(s@), i + 1 - start);
                assert(!parses_as_uint(s@, max as nat));
            }
            return None;
        }
        proof {
            assert(acc * 10 + d <= max) by (nonlinear_arith)
                requires
                    acc <= (max - d) / 10,
                    d <= max,
                    0 <= d,
                    0 <= acc,
            {}
            let cur = s@.subrange(start as int, i + 1);
            assert(cur.drop_last() =~= pre);
            assert(cur.last() == s@[i as int]);
        }
        acc = acc * 10 + d;
        i = i + 1;
    }
    proof {
        assert(s@.subrange(start as int, n as int) =~= uint_body(s@));
    }
    Some(acc)
}

/// The second space-separated field of a status line: the text between the
/// first space and the next space (or the end), where the status code
/// stands. `None` when the line holds no space at all.
pub open spec fn status_field(s: Seq<u8>) -> Option<Seq<u8>> {
    match find_byte_from(s, 32u8, 0) {
        None => None,
        Some(i) => Some(s.subrange(i + 1, end_of_field(s, i + 1))),
    }
}

/// Where the field starting at `from` ends: at the next space, or at the
/// end of the line.
pub open spec fn end_of_field(s: Seq<u8>, from: int) -> int {
    match find_byte_from(s, 32u8, from) {
        None => s.len() as int,
        Some(j) => j,
    }
}

/// Extracts the status code from a status line: the second space-separated
/// field, read as an unsigned number. Reports which check failed: no second
/// field, or a field that is not a number within `u16` range.
pub fn parse_status_line(line: &[u8]) -> (r: Result<u16, RequestError>)
    ensures
        r is Ok <==> (status_field(line@) matches Some(f) && parses_as_uint(f, 65535)),
        r matches Ok(c) ==> c == digits_val(uint_body(status_field(line@)->Some_0)),
        status_field(line@) is None ==> r == Err::<u16, RequestError>(
            RequestError::ResponseParseError(ParseFailure::StatusCodeMissing),
        ),
        (status_field(line@) matches Some(f) && !parses_as_uint(f, 65535)) ==> r == Err::<
            u16,
            RequestError,
        >(RequestError::ResponseParseError(ParseFailure::StatusCodeNotNumber)),
{
    let n = line.len();
    match find_byte(line, 32u8, 0) {
        None => Err(RequestError::ResponseParseError(ParseFailure::StatusCodeMissing)),
        Some(i) => {
            assert(i < n);
            let end = match find_byte(line, 32u8, i + 1) {
                None => n,
                Some(j) => j,
            };
            let f = slice_subrange(line, i + 1, end);
            match parse_uint(f, 65535) {
                None => Err(RequestError::ResponseParseError(ParseFailure::StatusCodeNotNumber)),
                Some(v) => Ok(v as u16),
            }
        },
    }
}

/// Where the line starting at `from` ends: at the first newline byte, or
/// at the end of the data.
pub open spec fn eol(s: Seq<u8>, from: int) -> int {
    match find_byte_from(s, 10u8, from) {
        None => s.len() as int,
        Some(i) => i,
    }
}

/// Drops one trailing carriage return, as line-oriented readers do.
pub open spec fn strip_cr(l: Seq<u8>) -> Seq<u8> {
    if l.len() > 0 && l.last() == 13u8 {
        l.drop_last()
    } else {
        l
    }
}

/// The line starting at `from`: the bytes up to the first newline (or the
/// end), without the newline and without one trailing carriage return.
pub open spec fn line_at(s: Seq<u8>, from: int) -> Seq<u8> {
    strip_cr(s.subrange(from, eol(s, from)))
}

/// The position just after the line starting at `from`: past the newline
/// that ended it, or the end of the data when no newline followed.
pub open spec fn next_pos(s: Seq<u8>, from: int) -> int {
    if eol(s, from) == s.len() {
        s.len() as int
    } else {
        eol(s, from) + 1
    }
}

/// Parses the header block that starts at `from`: one header per non-empty
/// line, stopping at (and consuming) the first empty line, or at the end of
/// the data. Returns the headers in arrival order and the position where
/// the body starts; fails when a non-empty line holds no `": "`.
pub open spec fn parse_header_block(s: Seq<u8>, from: int) -> Result<
    (Seq<(Seq<u8>, Seq<u8>)>, int),
    ParseFailure,
>
    decreases s.len() - from,
    via parse_header_block_decreases
{
    if from >= s.len() {
        Ok((Seq::empty(), s.len() as int))
    } else {
        let l = line_at(s, from);
        if l.len() == 0 {
            Ok((Seq::empty(), next_pos(s, from)))
        } else {
            match find_sep(l) {
                None => Err(ParseFailure::BadHeader),
                Some(k) => match parse_header_block(s, next_pos(s, from)) {
                    Err(e) => Err(e),
                    Ok((hs, body)) => Ok(
                        (
                            seq![(l.subrange(0, k), l.subrange(k + 2, l.len() as int))] + hs,
                            body,
                        ),
                    ),
                },
            }
        }
    }
}

#[via_fn]
proof fn parse_header_block_decreases(s: Seq<u8>, from: int) {
    if from < s.len() {
        if from < 0 {
            assert(find_byte_from(s, 10u8, from) is None);
        } else {
            lemma_find_byte_from_props(s, 10u8, from);
        }
    }
}

/// The name `Content-Length` as bytes.
pub open spec fn content_length_name() -> Seq<u8> {
    seq![67u8, 111u8, 110u8, 116u8, 101u8, 110u8, 116u8, 45u8, 76u8, 101u8, 110u8, 103u8, 116u8, 104u8]
}

/// What a whole received response means. `status` is the parsed status
/// code, `headers` the header block in arrival order, `body` the declared
/// number of body bytes or as many as arrived, and `premature` whether the
/// data ended before the declared length was reached.
pub ghost struct ResponseModel {
    pub status: u16,
    pub headers: Seq<(Seq<u8>, Seq<u8>)>,
    pub body: Seq<u8>,
    pub premature: bool,
}

/// The meaning of a complete received byte stream, as the engine reads it:
/// a status line, a header block up to an empty line, then a body of
/// `Content-Length` bytes (fewer if the data ends first). Each failure
/// names the first check that failed, in reading order.
pub open spec fn response_model(s: Seq<u8>) -> Result<ResponseModel, RequestError> {
    if s.len() == 0 {
        Err(RequestError::ResponseParseError(ParseFailure::FirstLineMissing))
    } else {
        match status_field(line_at(s, 0)) {
            None => Err(RequestError::ResponseParseError(ParseFailure::StatusCodeMissing)),
            Some(f) => if !parses_as_uint(f, 65535) {
                Err(RequestError::ResponseParseError(ParseFailure::StatusCodeNotNumber))
            } else {
                match parse_header_block(s, next_pos(s, 0)) {
                    Err(e) => Err(RequestError::ResponseParseError(e)),
                    Ok((hs, body_start)) => match lookup(hs, content_length_name()) {
                        None => Err(
                            RequestError::ResponseParseError(ParseFailure::NoContentLength),
                        ),
                        Some(v) => if !parses_as_uint(v, usize::MAX as nat) {
                            Err(
                                RequestError::ResponseParseError(
                                    ParseFailure::ContentLengthNotNumber,
                                ),
                            )
                        } else {
                            let cl = digits_val(uint_body(v)) as int;
                            let avail = s.len() - body_start;
                            let taken = if cl <= avail {
                                cl
                            } else {
                                avail
                            };
                            Ok(
                                (ResponseModel {
                                    status: digits_val(uint_body(f)) as u16,
                                    headers: hs,
                                    body: s.subrange(body_start, body_start + taken),
                                    premature: avail < cl,
                                }),
                            )
                        },
                    },
                }
            },
        }
    }
}

/// The `Content-Length` a header block declares, as a byte count. Reports
/// which check failed: the header is absent, or its value is not an
/// unsigned number that fits a `usize`.
pub fn body_length(headers: &Headers) -> (r: Result<usize, RequestError>)
    ensures
        match lookup(headers@, content_length_name()) {
            None => r == Err::<usize, RequestError>(
                RequestError::ResponseParseError(ParseFailure::NoContentLength),
            ),
            Some(v) => if parses_as_uint(v, usize::MAX as nat) {
                r matches Ok(c) && c == digits_val(uint_body(v))
            } else {
                r == Err::<usize, RequestError>(
                    RequestError::ResponseParseError(ParseFailure::ContentLengthNotNumber),
                )
            },
        },
{
    let value = match headers.get(content_length_bytes().as_slice()) {
        None => {
            return Err(RequestError::ResponseParseError(ParseFailure::NoContentLength));
        },
        Some(v) => v,
    };
    match parse_uint(value.as_slice(), usize::MAX as u64) {
        None => Err(RequestError::ResponseParseError(ParseFailure::ContentLengthNotNumber)),
        Some(v) => Ok(v as usize),
    }
}

/// The result of one request: the parsed status code, the response headers
/// in arrival order, the body bytes actually received, and whether the
/// stream ended before the declared `Content-Length` was reached (a normal
/// partial outcome, not an error).
#[derive(Debug)]
pub struct HttpResponse {
    pub status_code: u16,
    pub headers: Headers,
    pub body: Vec<u8>,
    pub premature_eof: bool,
}

/// Cuts the line starting at `p` out of `data`: returns the line (without
/// its terminator) and the position just after it.
pub fn take_line(data: &[u8], p: usize) -> (r: (Vec<u8>, usize))
    requires
        p <= data@.len(),
    ensures
        r.0@ == line_at(data@, p as int),
        r.1 == next_pos(data@, p as int),
        p <= r.1 <= data@.len(),
        p < data@.len() ==> p < r.1,
{
    proof {
        lemma_find_byte_from_props(data@, 10u8, p as int);
    }
    let e = match find_byte(data, 10u8, p) {
        None => data.len(),
        Some(i) => i,
    };
    let mut line = slice_to_vec(slice_subrange(data, p, e));
    if line.len() > 0 && line[line.len() - 1] == 13u8 {
        let ghost before = line@;
        line.pop();
        proof {
            assert(line@ =~= strip_cr(before));
        }
    }
    let next = if e == data.len() {
        data.len()
    } else {
        e + 1
    };
    (line, next)
}

/// Parses one complete received response. The outcome, success or the
/// first failed check, is exactly what `response_model` says of the bytes.
pub fn parse_response(data: &[u8]) -> (r: Result<HttpResponse, RequestError>)
    ensures
        r is Ok <==> response_model(data@) is Ok,
        r matches Ok(resp) ==> (response_model(data@) matches Ok(m) && resp.status_code == m.status
            && resp.headers@ == m.headers && resp.body@ == m.body && resp.premature_eof
            == m.premature),
        r matches Err(e) ==> (response_model(data@) matches Err(me) && me == e),
{
    if data.len() == 0 {
        return Err(RequestError::ResponseParseError(ParseFailure::FirstLineMissing));
    }
    let (status_line, p0) = take_line(data, 0);
    let status_code = match parse_status_line(status_line.as_slice()) {
        Err(e) => {
            return Err(e);
        },
        Ok(c) => c,
    };
    let ghost hstart = p0 as int;
    let mut hs = Headers::new();
    let mut p: usize = p0;
    let mut body_start: usize = 0;
    proof {
        assert(hs@ =~= Seq::<(Seq<u8>, Seq<u8>)>::empty());
    }
    loop
        invariant
            p0 <= p <= data@.len(),
            hstart == p0 as int,
            hstart == next_pos(data@, 0),
            data@.len() > 0,
            (status_field(line_at(data@, 0)) matches Some(f) && parses_as_uint(f, 65535)
                && status_code == digits_val(uint_body(f))),
            match parse_header_block(data@, p as int) {
                Ok((rest, b)) => parse_header_block(data@, hstart) == Ok::<
                    (Seq<(Seq<u8>, Seq<u8>)>, int),
                    ParseFailure,
                >((hs@ + rest, b)),
                Err(e) => parse_header_block(data@, hstart) == Err::<
                    (Seq<(Seq<u8>, Seq<u8>)>, int),
                    ParseFailure,
                >(e),
            },
        ensures
            parse_header_block(data@, hstart) matches Ok(done) && done.0 == hs@ && done.1
                == body_start as int,
            body_start <= data@.len(),
            hstart == next_pos(data@, 0),
            data@.len() > 0,
            (status_field(line_at(data@, 0)) matches Some(f) && parses_as_uint(f, 65535)
                && status_code == digits_val(uint_body(f))),
        decreases data@.len() - p,
    {
        if p >= data.len() {
            body_start = data.len();
            proof {
                assert(parse_header_block(data@, p as int) == Ok::<
                    (Seq<(Seq<u8>, Seq<u8>)>, int),
                    ParseFailure,
                >((Seq::<(Seq<u8>, Seq<u8>)>::empty(), data@.len() as int)));
                assert(hs@ + Seq::<(Seq<u8>, Seq<u8>)>::empty() =~= hs@);
            }
            break;
        }
        let (line, np) = take_line(data, p);
        if line.len() == 0 {
            body_start = np;
            proof {
                assert(hs@ + Seq::<(Seq<u8>, Seq<u8>)>::empty() =~= hs@);
            }
            break;
        }
        match Header::from_line(line.as_slice()) {
            Err(_) => {
                proof {
                    assert(parse_header_block(data@, p as int) == Err::<
                        (Seq<(Seq<u8>, Seq<u8>)>, int),
                        ParseFailure,
                    >(ParseFailure::BadHeader));
                }
                return Err(RequestError::ResponseParseError(ParseFailure::BadHeader));
            },
            Ok(h) => {
                let ghost hs_before = hs@;
                let ghost hv = h@;
                let ghost l = line@;
                let ghost k = find_sep(l)->Some_0;
                hs.push(h);
                proof {
                    let entry = (l.subrange(0, k), l.subrange(k + 2, l.len() as int));
                    assert(hv == entry);
                    match parse_header_block(data@, np as int) {
                        Ok((rest, b)) => {
                            assert(parse_header_block(data@, p as int) == Ok::<
                                (Seq<(Seq<u8>, Seq<u8>)>, int),
                                ParseFailure,
                            >((seq![entry] + rest, b)));
                            assert(hs_before + (seq![entry] + rest) =~= hs_before.push(entry)
                                + rest);
                        },
                        Err(_) => {},
                    }
                }
            },
        }
        p = np;
    }
    let content_length = match body_length(&hs) {
        Err(e) => {
            return Err(e);
        },
        Ok(c) => c,
    };
    let avail = data.len() - body_start;
    let taken = if content_length <= avail {
        content_length
    } else {
        avail
    };
    let body = slice_to_vec(slice_subrange(data, body_start, body_start + taken));
    Ok(
        (HttpResponse {
            status_code,
            headers: hs,
            body,
            premature_eof: avail < content_length,
        }),
    )
}

/// The name `Content-Length`, as bytes, for looking the header up.
pub fn content_length_bytes() -> (r: Vec<u8>)
    ensures
        r@ == content_length_name(),
{
    let mut v: Vec<u8> = Vec::new();
    v.push(67u8);
    v.push(111u8);
    v.push(110u8);
    v.push(116u8);
    v.push(101u8);
    v.push(110u8);
    v.push(116u8);
    v.push(45u8);
    v.push(76u8);
    v.push(101u8);
    v.push(110u8);
    v.push(103u8);
    v.push(116u8);
    v.push(104u8);
    proof {
        assert(v@ =~= content_length_name());
    }
    v
}

/// The scheme prefix `http://` as bytes.
pub open spec fn http_prefix() -> Seq<u8> {
    seq![104u8, 116u8, 116u8, 112u8, 58u8, 47u8, 47u8]
}

/// The URL begins with the literal scheme prefix `http://`.
pub open spec fn has_http_scheme(u: Seq<u8>) -> bool {
    u.len() >= 7 && u.subrange(0, 7) == http_prefix()
}

/// The URL after its scheme prefix.
pub open spec fn url_rest(u: Seq<u8>) -> Seq<u8> {
    u.skip(7)
}

/// The authority (host and optional port): what stands after the scheme
/// and before the first `/`, or all of the rest when there is no `/`.
pub open spec fn authority_of(u: Seq<u8>) -> Seq<u8> {
    match find_byte_from(url_rest(u), 47u8, 0) {
        None => url_rest(u),
        Some(i) => url_rest(u).take(i),
    }
}

/// The request path: from the first `/` after the scheme to the end, or
/// `/` alone when the rest holds no `/`.
pub open spec fn path_of(u: Seq<u8>) -> Seq<u8> {
    match find_byte_from(url_rest(u), 47u8, 0) {
        None => seq![47u8],
        Some(i) => url_rest(u).skip(i),
    }
}

/// Splits a URL into authority and path. Succeeds exactly on URLs that
/// begin with `http://`; everything else is `InvalidUrl`. No further URL
/// syntax is checked.
pub fn split_url(url: &[u8]) -> (r: Result<(Vec<u8>, Vec<u8>), RequestError>)
    ensures
        r is Ok <==> has_http_scheme(url@),
        r matches Ok(ap) ==> ap.0@ == authority_of(url@) && ap.1@ == path_of(url@),
        r matches Err(e) ==> e == RequestError::InvalidUrl,
{
    let n = url.len();
    if n < 7 {
        return Err(RequestError::InvalidUrl);
    }
    if url[0] != 104u8 || url[1] != 116u8 || url[2] != 116u8 || url[3] != 112u8 || url[4] != 58u8
        || url[5] != 47u8 || url[6] != 47u8 {
        proof {
            if has_http_scheme(url@) {
                assert(forall|j: int|
                    0 <= j < 7 ==> url@[j] == #[trigger] url@.subrange(0, 7)[j]);
                assert(url@[0] == 104u8 && url@[1] == 116u8 && url@[2] == 116u8 && url@[3]
                    == 112u8 && url@[4] == 58u8 && url@[5] == 47u8 && url@[6] == 47u8);
            }
        }
        return Err(RequestError::InvalidUrl);
    }
    proof {
        assert(url@.subrange(0, 7) =~= http_prefix());
        assert(url@.subrange(7, n as int) =~= url_rest(url@));
    }
    let rest = slice_subrange(url, 7, n);
    let m = rest.len();
    match find_byte(rest, 47u8, 0) {
        None => {
            let authority = slice_to_vec(rest);
            let mut path: Vec<u8> = Vec::new();
            path.push(47u8);
            proof {
                assert(path@ =~= seq![47u8]);
            }
            Ok((authority, path))
        },
        Some(i) => {
            let authority = slice_to_vec(slice_subrange(rest, 0, i));
            let path = slice_to_vec(slice_subrange(rest, i, m));
            proof {
                assert(rest@.subrange(0, i as int) =~= url_rest(url@).take(i as int));
                assert(rest@.subrange(i as int, m as int) =~= url_rest(url@).skip(i as int));
            }
            Ok((authority, path))
        },
    }
}

/// The request line's opening `GET ` as bytes.
pub open spec fn request_prefix() -> Seq<u8> {
    seq![71u8, 69u8, 84u8, 32u8]
}

/// The request line's closing ` HTTP/1.1` and its newline, as bytes.
pub open spec fn request_middle() -> Seq<u8> {
    seq![32u8, 72u8, 84u8, 84u8, 80u8, 47u8, 49u8, 46u8, 49u8, 10u8]
}

/// The full request text: the request line `GET <path> HTTP/1.1`, the
/// serialized header block, and the blank-line terminator. No body follows.
pub open spec fn request_text(path: Seq<u8>, hs: Seq<(Seq<u8>, Seq<u8>)>) -> Seq<u8> {
    request_prefix() + path + request_middle() + render(hs) + seq![10u8, 10u8]
}

/// Builds the bytes of a GET request for `path` carrying `headers`.
pub fn build_request(path: &[u8], headers: &Headers) -> (r: Vec<u8>)
    ensures
        r@ == request_text(path@, headers@),
{
    let mut out: Vec<u8> = Vec::new();
    out.push(71u8);
    out.push(69u8);
    out.push(84u8);
    out.push(32u8);
    crate::headers::append_bytes(&mut out, path);
    out.push(32u8);
    out.push(72u8);
    out.push(84u8);
    out.push(84u8);
    out.push(80u8);
    out.push(47u8);
    out.push(49u8);
    out.push(46u8);
    out.push(49u8);
    out.push(10u8);
    let block = headers.to_text();
    crate::headers::append_bytes(&mut out, block.as_slice());
    out.push(10u8);
    out.push(10u8);
    proof {
        assert(out@ =~= request_text(path@, headers@));
    }
    out
}

/// The header name `Host` as bytes.
pub open spec fn host_name() -> Seq<u8> {
    seq![72u8, 111u8, 115u8, 116u8]
}

/// Everything of a request that happens before the connection: checks the
/// scheme, splits the URL, appends a `Host` header naming the authority,
/// and builds the request bytes. Returns the connection target and the
/// bytes to write, or `InvalidUrl` without any connection work.
pub fn prepare_request(url: &[u8], headers: Headers) -> (r: Result<
    (Vec<u8>, Vec<u8>),
    RequestError,
>)
    ensures
        r is Ok <==> has_http_scheme(url@),
        r matches Err(e) ==> e == RequestError::InvalidUrl,
        r matches Ok(ar) ==> ar.0@ == authority_of(url@) && ar.1@ == request_text(
            path_of(url@),
            headers@.push((host_name(), authority_of(url@))),
        ),
{
    let (authority, path) = match split_url(url) {
        Err(e) => {
            return Err(e);
        },
        Ok(x) => x,
    };
    let mut hs = headers;
    let mut name: Vec<u8> = Vec::new();
    name.push(72u8);
    name.push(111u8);
    name.push(115u8);
    name.push(116u8);
    proof {
        assert(name@ =~= host_name());
    }
    hs.add(name, slice_to_vec(authority.as_slice()));
    let request = build_request(path.as_slice(), &hs);
    Ok((authority, request))
}

} // verus!
