use http11::parser::{response, Outcome, ParseError};

fn complete(input: &[u8]) -> (usize, http11::parser::Response) {
    match response(input) {
        Outcome::Complete { body_offset, response } => (body_offset, response),
        other => panic!("expected a complete parse, got {:?}", other),
    }
}

#[test]
fn status_line_and_headers_parse() {
    let input = b"HTTP/1.1 200 OK\r\nContent-Length: 5\r\n\r\nhello";
    let (off, res) = complete(input);
    assert_eq!(off, 38);
    assert_eq!(res.status, 200);
    assert_eq!(res.status_text, b"OK".to_vec());
    assert_eq!(res.headers.len(), 1);
    assert_eq!(res.headers[0].0, b"Content-Length".to_vec());
    assert_eq!(res.headers[0].1, b"5".to_vec());
}

#[test]
fn status_text_may_be_empty_or_long() {
    let (_, res) = complete(b"HTTP/1.1 404 \r\n\r\n");
    assert_eq!(res.status, 404);
    assert_eq!(res.status_text, b"".to_vec());
    let (_, res) = complete(b"HTTP/1.1 404 Not Found\r\n\r\n");
    assert_eq!(res.status_text, b"Not Found".to_vec());
}

#[test]
fn wrong_version_literal_is_malformed() {
    assert_eq!(
        response(b"HTTP/1.0 200 OK\r\n"),
        Outcome::Malformed(ParseError::BadVersion)
    );
    assert_eq!(response(b"HTXP"), Outcome::Malformed(ParseError::BadVersion));
}

#[test]
fn every_proper_prefix_is_incomplete() {
    let input = b"HTTP/1.1 200 OK\r\nContent-Length: 5\r\nSet-Cookie: a\r\n\r\n";
    for n in 0..input.len() {
        assert_eq!(
            response(&input[..n]),
            Outcome::Incomplete,
            "prefix of length {n} must need more bytes"
        );
    }
    assert!(matches!(response(input), Outcome::Complete { .. }));
}

#[test]
fn longer_buffer_never_changes_a_complete_parse() {
    let head = b"HTTP/1.1 200 OK\r\nContent-Length: 5\r\n\r\n".to_vec();
    let (off1, res1) = complete(&head);
    let mut extended = head.clone();
    extended.extend_from_slice(b"hello and some bytes of the next message");
    let (off2, res2) = complete(&extended);
    assert_eq!(off1, off2);
    assert_eq!(res1, res2);
}

#[test]
fn duplicate_headers_are_kept_in_order() {
    let (_, res) = complete(b"HTTP/1.1 200 OK\r\nA: 1\r\nA: 2\r\n\r\n");
    assert_eq!(res.headers.len(), 2);
    assert_eq!(res.headers[0], (b"A".to_vec(), b"1".to_vec()));
    assert_eq!(res.headers[1], (b"A".to_vec(), b"2".to_vec()));
}

#[test]
fn value_spaces_after_colon_are_skipped() {
    let (_, res) = complete(b"HTTP/1.1 200 OK\r\nX:   spaced value\r\nY:\ttabbed\r\n\r\n");
    assert_eq!(res.headers[0], (b"X".to_vec(), b"spaced value".to_vec()));
    assert_eq!(res.headers[1], (b"Y".to_vec(), b"tabbed".to_vec()));
}

#[test]
fn missing_space_after_version_is_malformed() {
    assert_eq!(
        response(b"HTTP/1.1/200 OK\r\n\r\n"),
        Outcome::Malformed(ParseError::MissingSpaceAfterVersion)
    );
}

#[test]
fn status_code_must_be_digits_that_fit() {
    assert_eq!(
        response(b"HTTP/1.1 abc\r\n\r\n"),
        Outcome::Malformed(ParseError::BadStatusCode)
    );
    assert_eq!(
        response(b"HTTP/1.1 99999 Huge\r\n\r\n"),
        Outcome::Malformed(ParseError::BadStatusCode)
    );
}

#[test]
fn missing_space_after_status_is_malformed() {
    assert_eq!(
        response(b"HTTP/1.1 200\r\n\r\n"),
        Outcome::Malformed(ParseError::MissingSpaceAfterStatus)
    );
}

#[test]
fn invalid_utf8_status_text_is_malformed() {
    let input = [b"HTTP/1.1 200 ".as_slice(), &[0xff, 0xfe], b"\r\n\r\n"].concat();
    assert_eq!(response(&input), Outcome::Malformed(ParseError::BadStatusText));
}

#[test]
fn invalid_utf8_header_value_is_malformed() {
    let input = [b"HTTP/1.1 200 OK\r\nX: ".as_slice(), &[0xff], b"\r\n\r\n"].concat();
    assert_eq!(response(&input), Outcome::Malformed(ParseError::BadHeaderValue));
}

#[test]
fn invalid_utf8_header_name_is_malformed() {
    let input = [b"HTTP/1.1 200 OK\r\n".as_slice(), &[0xff], b"x: 1\r\n\r\n"].concat();
    assert_eq!(response(&input), Outcome::Malformed(ParseError::BadHeaderName));
}

#[test]
fn bytes_after_the_blank_line_are_not_consumed() {
    let (off, _) = complete(b"HTTP/1.1 200 OK\r\n\r\ntrailing body bytes");
    assert_eq!(off, b"HTTP/1.1 200 OK\r\n\r\n".len());
}

#[test]
fn tabs_count_as_separating_spaces() {
    let (_, res) = complete(b"HTTP/1.1\t200\tOK\r\n\r\n");
    assert_eq!(res.status, 200);
    assert_eq!(res.status_text, b"OK".to_vec());
}
