use http_head::{parse_request, parse_response, ParseError};

#[test]
fn test_parse_request() {
    let input = b"GET /index HTTP/1.1\nhost:test.com\nContent-Type:text/html\n\r\nabc";
    let result = parse_request(input).unwrap();
    assert_eq!(result.method, b"GET");
    assert_eq!(result.url, b"/index");
    assert_eq!(result.http_version, b"HTTP/1.1");
    assert_eq!(result.headers.len(), 2);
    assert_eq!(result.headers.get(&b"host"[..]).unwrap(), &b"test.com"[..]);
    assert_eq!(result.headers.get(&b"Content-Type"[..]).unwrap(), &b"text/html"[..]);
    assert_eq!(result.body, b"abc");
}

#[test]
fn test_parse_response() {
    let input = b"HTTP/1.1 200 OK\nContent-Length:88\nContent-Type:text/html\n\r\nbody123";
    let result = parse_response(input).unwrap();
    assert_eq!(result.status_code, b"200");
    assert_eq!(result.status, b"OK");
    assert_eq!(result.http_version, b"HTTP/1.1");
    assert_eq!(result.headers.len(), 2);
    assert_eq!(result.headers.get(&b"Content-Length"[..]).unwrap(), &b"88"[..]);
    assert_eq!(result.headers.get(&b"Content-Type"[..]).unwrap(), &b"text/html"[..]);
    assert_eq!(result.body, b"body123");
}

#[test]
fn no_headers_yields_empty_mapping_and_body() {
    let input = b"GET / HTTP/1.1\n\r\n";
    let result = parse_request(input).unwrap();
    assert_eq!(result.method, b"GET");
    assert_eq!(result.url, b"/");
    assert_eq!(result.http_version, b"HTTP/1.1");
    assert_eq!(result.headers.len(), 0);
    assert!(result.headers.get(&b"host"[..]).is_none());
    assert_eq!(result.body, b"");
}

#[test]
fn empty_body_is_not_an_error() {
    let input = b"GET / HTTP/1.1\nhost:a\n\r\n";
    let result = parse_request(input).unwrap();
    assert_eq!(result.headers.len(), 1);
    assert_eq!(result.body, b"");
}

#[test]
fn duplicate_header_key_last_occurrence_wins() {
    let input = b"GET / HTTP/1.1\nhost:first\nother:x\nhost:second\n\r\n";
    let result = parse_request(input).unwrap();
    assert_eq!(result.headers.len(), 2);
    assert_eq!(result.headers.get(&b"host"[..]).unwrap(), &b"second"[..]);
    assert_eq!(result.headers.get(&b"other"[..]).unwrap(), &b"x"[..]);
}

#[test]
fn parsing_twice_yields_equal_results() {
    let input = b"GET /index HTTP/1.1\nhost:test.com\nContent-Type:text/html\n\r\nabc";
    let a = parse_request(input).unwrap();
    let b = parse_request(input).unwrap();
    assert_eq!(a.method, b.method);
    assert_eq!(a.url, b.url);
    assert_eq!(a.http_version, b.http_version);
    assert_eq!(a.headers.len(), b.headers.len());
    assert_eq!(
        a.headers.get(&b"host"[..]).unwrap(),
        b.headers.get(&b"host"[..]).unwrap()
    );
    assert_eq!(a.body, b.body);
}

#[test]
fn slices_reconstruct_the_buffer() {
    let input = b"POST /submit HTTP/1.0\na:1\nbb:22\n\r\npayload";
    let result = parse_request(input).unwrap();
    let mut rebuilt: Vec<u8> = Vec::new();
    rebuilt.extend_from_slice(result.method);
    rebuilt.push(b' ');
    rebuilt.extend_from_slice(result.url);
    rebuilt.push(b' ');
    rebuilt.extend_from_slice(result.http_version);
    rebuilt.push(b'\n');
    for (key, value) in result.headers.pairs.iter() {
        rebuilt.extend_from_slice(key);
        rebuilt.push(b':');
        rebuilt.extend_from_slice(value);
        rebuilt.push(b'\n');
    }
    rebuilt.push(b'\r');
    rebuilt.push(b'\n');
    rebuilt.extend_from_slice(result.body);
    assert_eq!(rebuilt.as_slice(), &input[..]);
}

#[test]
fn final_field_may_contain_spaces() {
    let input = b"HTTP/1.1 404 Not Found\n\r\n";
    let result = parse_response(input).unwrap();
    assert_eq!(result.http_version, b"HTTP/1.1");
    assert_eq!(result.status_code, b"404");
    assert_eq!(result.status, b"Not Found");
    assert_eq!(result.body, b"");
}

#[test]
fn empty_buffer_is_truncated() {
    assert!(matches!(parse_request(b""), Err(ParseError::Truncated)));
    assert!(matches!(parse_response(b""), Err(ParseError::Truncated)));
}

#[test]
fn start_line_without_second_space_is_truncated() {
    assert!(matches!(parse_request(b"GET /index"), Err(ParseError::Truncated)));
}

#[test]
fn start_line_without_line_feed_is_truncated() {
    assert!(matches!(parse_response(b"HTTP/1.1 200 OK"), Err(ParseError::Truncated)));
}

#[test]
fn header_line_without_line_feed_is_truncated() {
    assert!(matches!(
        parse_request(b"GET / HTTP/1.1\nhost:a"),
        Err(ParseError::Truncated)
    ));
}

#[test]
fn buffer_ending_at_carriage_return_is_truncated() {
    assert!(matches!(parse_request(b"GET / HTTP/1.1\n\r"), Err(ParseError::Truncated)));
}

#[test]
fn byte_other_than_line_feed_after_carriage_return_is_malformed() {
    assert!(matches!(
        parse_request(b"GET / HTTP/1.1\n\rX\n"),
        Err(ParseError::Malformed)
    ));
}

#[test]
fn empty_start_line_field_is_malformed() {
    assert!(matches!(parse_request(b" / HTTP/1.1\n\r\n"), Err(ParseError::Malformed)));
    assert!(matches!(parse_request(b"GET  HTTP/1.1\n\r\n"), Err(ParseError::Malformed)));
}

#[test]
fn line_feed_inside_early_start_field_is_malformed() {
    assert!(matches!(
        parse_request(b"GET /\nHTTP/1.1\n\r\n"),
        Err(ParseError::Malformed)
    ));
}

#[test]
fn header_line_without_colon_is_malformed() {
    assert!(matches!(
        parse_request(b"GET / HTTP/1.1\nfoo\n\r\nx"),
        Err(ParseError::Malformed)
    ));
}

#[test]
fn empty_header_key_is_malformed() {
    assert!(matches!(
        parse_request(b"GET / HTTP/1.1\n:v\n\r\n"),
        Err(ParseError::Malformed)
    ));
}

#[test]
fn empty_header_value_is_malformed() {
    assert!(matches!(
        parse_request(b"GET / HTTP/1.1\nk:\n\r\n"),
        Err(ParseError::Malformed)
    ));
}

#[test]
fn colon_inside_header_value_is_malformed() {
    assert!(matches!(
        parse_request(b"GET / HTTP/1.1\nk:a:b\n\r\n"),
        Err(ParseError::Malformed)
    ));
}

#[test]
fn carriage_return_inside_header_line_is_malformed() {
    assert!(matches!(
        parse_request(b"GET / HTTP/1.1\nab\r\ncd\n\r\n"),
        Err(ParseError::Malformed)
    ));
}
