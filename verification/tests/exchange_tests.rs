use http11::exchange::{content_length, Exchange, ExchangeError, StepResult};
use http11::parser::ParseError;

fn headers(pairs: &[(&[u8], &[u8])]) -> Vec<(Vec<u8>, Vec<u8>)> {
    pairs.iter().map(|(n, v)| (n.to_vec(), v.to_vec())).collect()
}

/// Feed `input` in the given chunk sizes and return the first terminal
/// result; an exhausted input feeds one empty chunk, as a closed stream
/// would.
fn run(input: &[u8], chunk: usize) -> StepResult {
    let mut exchange = Exchange::new();
    let mut at = 0;
    loop {
        let next = (at + chunk).min(input.len());
        let r = exchange.on_read(&input[at..next]);
        at = next;
        match r {
            StepResult::NeedRead => continue,
            terminal => return terminal,
        }
    }
}

fn expect_done(r: StepResult) -> (http11::parser::Response, Vec<u8>) {
    match r {
        StepResult::Done { response, body } => (response, body),
        other => panic!("expected a finished exchange, got {:?}", other),
    }
}

#[test]
fn end_to_end_single_read() {
    let input = b"HTTP/1.1 200 OK\r\nContent-Length: 5\r\n\r\nhello";
    let (res, body) = expect_done(run(input, input.len()));
    assert_eq!(res.status, 200);
    assert_eq!(res.status_text, b"OK".to_vec());
    assert_eq!(res.headers, vec![(b"Content-Length".to_vec(), b"5".to_vec())]);
    assert_eq!(body, b"hello".to_vec());
}

#[test]
fn end_to_end_split_anywhere() {
    let input = b"HTTP/1.1 200 OK\r\nContent-Length: 5\r\n\r\nhello";
    let (res1, body1) = expect_done(run(input, input.len()));
    for cut in 1..input.len() {
        let mut exchange = Exchange::new();
        assert_eq!(exchange.on_read(&input[..cut]), StepResult::NeedRead);
        let (res, body) = expect_done(exchange.on_read(&input[cut..]));
        assert_eq!(res, res1, "split at {cut}");
        assert_eq!(body, body1, "split at {cut}");
    }
}

#[test]
fn one_byte_chunks_agree_with_one_read() {
    let input = b"HTTP/1.1 200 OK\r\nContent-Length: 5\r\n\r\nhello";
    let whole = expect_done(run(input, input.len()));
    let trickled = expect_done(run(input, 1));
    assert_eq!(whole, trickled);
}

#[test]
fn missing_content_length_means_empty_body() {
    let input = b"HTTP/1.1 200 OK\r\nServer: x\r\n\r\nthese bytes are not the body";
    let (res, body) = expect_done(run(input, input.len()));
    assert_eq!(res.status, 200);
    assert_eq!(body, b"".to_vec());
}

#[test]
fn lookup_is_case_insensitive() {
    let lower = b"HTTP/1.1 200 OK\r\ncontent-length: 5\r\n\r\nhello";
    let upper = b"HTTP/1.1 200 OK\r\nContent-Length: 5\r\n\r\nhello";
    let (_, body_lower) = expect_done(run(lower, lower.len()));
    let (_, body_upper) = expect_done(run(upper, upper.len()));
    assert_eq!(body_lower, b"hello".to_vec());
    assert_eq!(body_lower, body_upper);
    assert_eq!(
        content_length(&headers(&[(b"CONTENT-LENGTH", b"7")])),
        Ok(7)
    );
}

#[test]
fn first_content_length_header_wins() {
    assert_eq!(
        content_length(&headers(&[(b"Content-Length", b"3"), (b"Content-Length", b"9")])),
        Ok(3)
    );
}

#[test]
fn content_length_defaults_to_zero() {
    assert_eq!(content_length(&headers(&[])), Ok(0));
    assert_eq!(content_length(&headers(&[(b"Server", b"x")])), Ok(0));
}

#[test]
fn content_length_accepts_a_leading_plus() {
    assert_eq!(content_length(&headers(&[(b"Content-Length", b"+5")])), Ok(5));
}

#[test]
fn unparsable_content_length_is_an_error() {
    for bad in [&b"abc"[..], b"", b"5x", b"-1", b" 5", b"+", b"99999999999999999999999999"] {
        assert_eq!(
            content_length(&headers(&[(b"Content-Length", bad)])),
            Err(ExchangeError::InvalidContentLength),
            "value {:?}",
            String::from_utf8_lossy(bad)
        );
    }
    let input = b"HTTP/1.1 200 OK\r\nContent-Length: abc\r\n\r\n";
    assert_eq!(
        run(input, input.len()),
        StepResult::Failed(ExchangeError::InvalidContentLength)
    );
}

#[test]
fn malformed_headers_fail_the_exchange() {
    let input = b"HTTP/1.0 200 OK\r\n";
    assert_eq!(
        run(input, input.len()),
        StepResult::Failed(ExchangeError::MalformedHeaders(ParseError::BadVersion))
    );
}

#[test]
fn eof_during_headers_fails() {
    let input = b"HTTP/1.1 200 OK\r\nContent-Le";
    assert_eq!(
        run(input, input.len()),
        StepResult::Failed(ExchangeError::UnexpectedEofInHeaders)
    );
    let mut exchange = Exchange::new();
    assert_eq!(
        exchange.on_read(b""),
        StepResult::Failed(ExchangeError::UnexpectedEofInHeaders)
    );
}

#[test]
fn eof_during_body_fails() {
    let input = b"HTTP/1.1 200 OK\r\nContent-Length: 5\r\n\r\nhel";
    assert_eq!(
        run(input, input.len()),
        StepResult::Failed(ExchangeError::UnexpectedEofInBody)
    );
}

#[test]
fn body_bytes_beyond_the_declared_length_are_left_alone() {
    let input = b"HTTP/1.1 200 OK\r\nContent-Length: 2\r\n\r\nabEXTRA";
    let (_, body) = expect_done(run(input, input.len()));
    assert_eq!(body, b"ab".to_vec());
}
