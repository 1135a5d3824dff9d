//! The parse functions: one shared scan over the buffer, and the two
//! public entry points that name its fields for requests and responses.

use vstd::prelude::*;

use crate::headers::Headers;
use crate::model::body_start;
use crate::model::field1;
use crate::model::field2;
use crate::model::field3;
use crate::model::header_pairs;
use crate::model::header_status;
use crate::model::headers_map;
use crate::model::map_of_pairs;
use crate::model::message_body;
use crate::model::msg_status;
use crate::model::Validity;
use crate::model::CARRIAGE_RETURN;
use crate::model::COLON;
use crate::model::LINE_FEED;
use crate::model::SPACE;
use crate::scan::find_from;

verus! {

/// Why a buffer could not be parsed: it ended before an expected delimiter,
/// or a byte stood where the message shape forbids one.
#[derive(Clone, Copy, Debug, PartialEq, Eq, Structural)]
pub enum ParseError {
    /// The buffer ended before an expected delimiter appeared.
    Truncated,
    /// A byte appeared where the message shape forbids one.
    Malformed,
}

/// A parsed request head: three start-line fields, the header mapping, and
/// the body, all borrowed from the input buffer.
pub struct Request<'a> {
    /// The method: the first start-line field.
    pub method: &'a [u8],
    /// The URL: the second start-line field.
    pub url: &'a [u8],
    /// The protocol version: the last start-line field.
    pub http_version: &'a [u8],
    /// The header mapping, a later duplicate key overwriting an earlier one.
    pub headers: Headers<'a>,
    /// Everything past the blank line; may be empty.
    pub body: &'a [u8],
}

/// A parsed response head: like [`Request`], with the status line fields in
/// place of the request line fields.
pub struct Response<'a> {
    /// The status text: the last start-line field.
    pub status: &'a [u8],
    /// The status code: the second start-line field.
    pub status_code: &'a [u8],
    /// The protocol version: the first start-line field.
    pub http_version: &'a [u8],
    /// The header mapping, a later duplicate key overwriting an earlier one.
    pub headers: Headers<'a>,
    /// Everything past the blank line; may be empty.
    pub body: &'a [u8],
}

/// What a request parsed from `s` holds: each field is the byte range that
/// the model names.
pub open spec fn request_matches<'a>(s: Seq<u8>, r: Request<'a>) -> bool {
    &&& r.method@ == field1(s)
    &&& r.url@ == field2(s)
    &&& r.http_version@ == field3(s)
    &&& r.headers@ == headers_map(s)
    &&& r.body@ == message_body(s)
}

/// What a response parsed from `s` holds: each field is the byte range that
/// the model names.
pub open spec fn response_matches<'a>(s: Seq<u8>, r: Response<'a>) -> bool {
    &&& r.http_version@ == field1(s)
    &&& r.status_code@ == field2(s)
    &&& r.status@ == field3(s)
    &&& r.headers@ == headers_map(s)
    &&& r.body@ == message_body(s)
}

/// The shared shape of a parsed head before its fields are named.
struct Parsed<'a> {
    first: &'a [u8],
    second: &'a [u8],
    third: &'a [u8],
    headers: Headers<'a>,
    body: &'a [u8],
}

/// One left-to-right scan over the buffer: locates the two spaces and the
/// line feed of the start line, walks the header lines, and stops two bytes
/// past the blank line.
#[verifier::loop_isolation(false)]
fn parse_head<'a>(data: &'a [u8]) -> (r: Result<Parsed<'a>, ParseError>)
    ensures
        r is Ok <==> msg_status(data@) is Valid,
        r matches Ok(h) ==> (h.first@ == field1(data@) && h.second@ == field2(data@)
            && h.third@ == field3(data@) && h.headers@ == headers_map(data@)
            && h.headers.wf() && h.body@ == message_body(data@)),
        r matches Err(e) ==> ((e is Truncated <==> msg_status(data@) is Truncated)
            && (e is Malformed <==> msg_status(data@) is Malformed)),
{
    let ghost s = data@;
    let n = data.len();

    // Start line: first field up to a space, free of line feeds, non-empty.
    let sp1 = find_from(data, 0, SPACE);
    let lf1 = find_from(data, 0, LINE_FEED);
    if lf1 < sp1 {
        return Err(ParseError::Malformed);
    }
    if sp1 == n {
        return Err(ParseError::Truncated);
    }
    if sp1 == 0 {
        return Err(ParseError::Malformed);
    }
    // Second field, the same way.
    let sp2 = find_from(data, sp1 + 1, SPACE);
    let lf2 = find_from(data, sp1 + 1, LINE_FEED);
    if lf2 < sp2 {
        return Err(ParseError::Malformed);
    }
    if sp2 == n {
        return Err(ParseError::Truncated);
    }
    if sp2 == sp1 + 1 {
        return Err(ParseError::Malformed);
    }
    // Third field, up to the line feed that ends the start line.
    let lf3 = find_from(data, sp2 + 1, LINE_FEED);
    if lf3 == n {
        return Err(ParseError::Truncated);
    }
    if lf3 == sp2 + 1 {
        return Err(ParseError::Malformed);
    }
    let first = &data[0..sp1];
    let second = &data[sp1 + 1..sp2];
    let third = &data[sp2 + 1..lf3];

    // Header block: one line per loop round.
    let mut p: usize = lf3 + 1;
    let mut headers = Headers::new();
    let ghost mut gpairs: Seq<(Seq<u8>, Seq<u8>)> = Seq::empty();
    loop
        invariant
            lf3 + 1 <= p <= n,
            header_status(s, (lf3 + 1) as int) == header_status(s, p as int),
            header_pairs(s, (lf3 + 1) as int) == gpairs + header_pairs(s, p as int),
            body_start(s, (lf3 + 1) as int) == body_start(s, p as int),
            headers@ == map_of_pairs(gpairs),
            headers.wf(),
        decreases n - p,
    {
        if p == n {
            return Err(ParseError::Truncated);
        }
        if data[p] == CARRIAGE_RETURN {
            // The blank line: a line feed must follow, then the body runs
            // to the end of the buffer.
            if p + 1 == n {
                return Err(ParseError::Truncated);
            }
            if data[p + 1] != LINE_FEED {
                return Err(ParseError::Malformed);
            }
            let body = &data[p + 2..n];
            proof {
                assert(header_pairs(s, (lf3 + 1) as int) =~= gpairs);
            }
            return Ok(Parsed { first, second, third, headers, body });
        }
        // One header line: a non-empty key up to the colon, then a
        // non-empty value up to the line feed, neither holding a stray
        // delimiter byte.
        let c = find_from(data, p, COLON);
        let klf = find_from(data, p, LINE_FEED);
        let kcr = find_from(data, p, CARRIAGE_RETURN);
        if klf < c || kcr < c {
            return Err(ParseError::Malformed);
        }
        if c == n {
            return Err(ParseError::Truncated);
        }
        if c == p {
            return Err(ParseError::Malformed);
        }
        let vlf = find_from(data, c + 1, LINE_FEED);
        let vc = find_from(data, c + 1, COLON);
        let vcr = find_from(data, c + 1, CARRIAGE_RETURN);
        if vc < vlf || vcr < vlf {
            return Err(ParseError::Malformed);
        }
        if vlf == n {
            return Err(ParseError::Truncated);
        }
        if vlf == c + 1 {
            return Err(ParseError::Malformed);
        }
        let key = &data[p..c];
        let value = &data[c + 1..vlf];
        headers.insert(key, value);
        proof {
            let old_pairs = gpairs;
            gpairs = gpairs.push((key@, value@));
            assert(gpairs.drop_last() =~= old_pairs);
            assert(header_pairs(s, (lf3 + 1) as int)
                =~= gpairs + header_pairs(s, (vlf + 1) as int));
        }
        p = vlf + 1;
    }
}

/// Parses a request head and its trailing body out of `data`.
///
/// Succeeds exactly on well-shaped buffers; a buffer that ends too early or
/// carries a byte where the shape forbids one is reported as the matching
/// [`ParseError`].  On success every field is the borrowed byte range that
/// the model names, so the result is a function of the buffer alone.
pub fn parse_request<'a>(data: &'a [u8]) -> (r: Result<Request<'a>, ParseError>)
    ensures
        r is Ok <==> msg_status(data@) is Valid,
        r matches Ok(req) ==> request_matches(data@, req) && req.headers.wf(),
        r matches Err(e) ==> ((e is Truncated <==> msg_status(data@) is Truncated)
            && (e is Malformed <==> msg_status(data@) is Malformed)),
{
    match parse_head(data) {
        Ok(h) => Ok(
            Request {
                method: h.first,
                url: h.second,
                http_version: h.third,
                headers: h.headers,
                body: h.body,
            },
        ),
        Err(e) => Err(e),
    }
}

/// Parses a response head and its trailing body out of `data`.
///
/// The scan is the one of [`parse_request`]; only the names of the three
/// start-line fields differ.
pub fn parse_response<'a>(data: &'a [u8]) -> (r: Result<Response<'a>, ParseError>)
    ensures
        r is Ok <==> msg_status(data@) is Valid,
        r matches Ok(resp) ==> response_matches(data@, resp) && resp.headers.wf(),
        r matches Err(e) ==> ((e is Truncated <==> msg_status(data@) is Truncated)
            && (e is Malformed <==> msg_status(data@) is Malformed)),
{
    match parse_head(data) {
        Ok(h) => Ok(
            Response {
                http_version: h.first,
                status_code: h.second,
                status: h.third,
                headers: h.headers,
                body: h.body,
            },
        ),
        Err(e) => Err(e),
    }
}

/// Parsing is repeatable: two request values that both hold the parse
/// result for one buffer agree on every field.
pub proof fn lemma_request_deterministic<'a, 'b>(s: Seq<u8>, r1: Request<'a>, r2: Request<'b>)
    requires
        request_matches(s, r1),
        request_matches(s, r2),
    ensures
        r1.method@ == r2.method@,
        r1.url@ == r2.url@,
        r1.http_version@ == r2.http_version@,
        r1.headers@ == r2.headers@,
        r1.body@ == r2.body@,
{
}

/// Parsing is repeatable: two response values that both hold the parse
/// result for one buffer agree on every field.
pub proof fn lemma_response_deterministic<'a, 'b>(s: Seq<u8>, r1: Response<'a>, r2: Response<'b>)
    requires
        response_matches(s, r1),
        response_matches(s, r2),
    ensures
        r1.http_version@ == r2.http_version@,
        r1.status_code@ == r2.status_code@,
        r1.status@ == r2.status@,
        r1.headers@ == r2.headers@,
        r1.body@ == r2.body@,
{
}

} // verus!
