//! Incremental parser for an HTTP/1.1 status line and header block.
//!
//! The grammar is stated once, as spec functions over the byte buffer;
//! `response` is the executable parser, proved to return exactly what
//! those functions say of every buffer. An incomplete buffer is reported
//! as needing more bytes, never as malformed.

use vstd::prelude::*;
use vstd::slice::{slice_subrange, slice_to_vec};
use crate::scan::{
    digit_at, digits_value, find1, find2, find_from, is_digit, lemma_digits_value_nonneg,
    lemma_digits_value_same, lemma_find_from_char, lemma_find_from_extend,
    lemma_find_from_restrict, lemma_match_at_prefix, lemma_prefix_index, lemma_skip_digits_bounds,
    lemma_skip_digits_extend, lemma_skip_digits_restrict, lemma_skip_digits_run,
    lemma_skip_sp_bounds, lemma_skip_sp_extend, lemma_skip_sp_restrict, match_at, skip_digits,
    skip_sp, skip_sp_run,
};

verus! {

/// A parsed response: status code, status text, and header pairs in wire
/// order, duplicates kept.
#[derive(Debug, PartialEq, Eq)]
pub struct Response {
    pub status: u16,
    pub status_text: Vec<u8>,
    pub headers: Vec<(Vec<u8>, Vec<u8>)>,
}

/// Why a buffer was rejected as malformed.
#[derive(Debug, Clone, Copy, PartialEq, Eq, Structural)]
pub enum ParseError {
    /// The buffer does not begin with `HTTP/1.1`.
    BadVersion,
    /// No space follows the version literal.
    MissingSpaceAfterVersion,
    /// The status code is missing or does not fit in sixteen bits.
    BadStatusCode,
    /// No space follows the status code.
    MissingSpaceAfterStatus,
    /// The status text is not valid UTF-8.
    BadStatusText,
    /// A header name is not valid UTF-8.
    BadHeaderName,
    /// A header value is not valid UTF-8.
    BadHeaderValue,
}

/// Result of one parse attempt over an accumulated buffer.
#[derive(Debug, PartialEq, Eq)]
pub enum Outcome {
    /// Headers are complete; `body_offset` is where the body starts.
    Complete { body_offset: usize, response: Response },
    /// The buffer is a valid but incomplete prefix: read more bytes.
    Incomplete,
    /// The buffer cannot be a prefix of any valid response.
    Malformed(ParseError),
}

/// Mathematical image of a `Response`.
#[verifier::ext_equal]
pub struct SpecResponse {
    pub status: int,
    pub status_text: Seq<u8>,
    pub headers: Seq<(Seq<u8>, Seq<u8>)>,
}

/// Mathematical image of an `Outcome`.
#[verifier::ext_equal]
pub enum SpecOutcome {
    Complete { end: int, response: SpecResponse },
    Incomplete,
    Malformed(ParseError),
}

/// Header pairs of a vector of byte vectors, as sequences.
pub open spec fn hdrs_view(s: Seq<(Vec<u8>, Vec<u8>)>) -> Seq<(Seq<u8>, Seq<u8>)> {
    Seq::new(s.len(), |k: int| (s[k].0@, s[k].1@))
}

impl View for Response {
    type V = SpecResponse;

    open spec fn view(&self) -> SpecResponse {
        SpecResponse {
            status: self.status as int,
            status_text: self.status_text@,
            headers: hdrs_view(self.headers@),
        }
    }
}

impl View for Outcome {
    type V = SpecOutcome;

    open spec fn view(&self) -> SpecOutcome {
        match self {
            Outcome::Complete { body_offset, response } => SpecOutcome::Complete {
                end: *body_offset as int,
                response: response@,
            },
            Outcome::Incomplete => SpecOutcome::Incomplete,
            Outcome::Malformed(e) => SpecOutcome::Malformed(*e),
        }
    }
}

/// The bytes of the literal `HTTP/1.1`.
pub open spec fn http11_lit() -> Seq<u8> {
    seq![72u8, 84u8, 84u8, 80u8, 47u8, 49u8, 46u8, 49u8]
}

/// The bytes of the line terminator `\r\n`.
pub open spec fn crlf() -> Seq<u8> {
    seq![13u8, 10u8]
}

/// The bytes are valid UTF-8.
pub uninterp spec fn is_utf8(b: Seq<u8>) -> bool;

/// Relies on `core::str::from_utf8`: it returns `Ok` exactly when the
/// bytes are valid UTF-8.
#[verifier::external_body]
fn utf8_valid(b: &[u8]) -> (r: bool)
    ensures
        r == is_utf8(b@),
{
    core::str::from_utf8(b).is_ok()
}

/// A parsed status line: code, text, and the position just past its
/// terminator.
#[verifier::ext_equal]
pub struct StatusLine {
    pub status: int,
    pub text: Seq<u8>,
    pub after: int,
}

/// Outcome of one stage of the grammar: parsed, needs more bytes, or
/// malformed.
#[verifier::ext_equal]
pub enum LineStep {
    Done(StatusLine),
    More,
    Bad(ParseError),
}

/// Parse the status line `HTTP/1.1 <code> <text>\r\n` at the start of `b`.
pub open spec fn parse_status_line(b: Seq<u8>) -> LineStep {
    if b.len() < 8 {
        if b == http11_lit().subrange(0, b.len() as int) {
            LineStep::More
        } else {
            LineStep::Bad(ParseError::BadVersion)
        }
    } else if b.subrange(0, 8) != http11_lit() {
        LineStep::Bad(ParseError::BadVersion)
    } else {
        let s1 = skip_sp(b, 8);
        if s1 == b.len() {
            LineStep::More
        } else if s1 == 8 {
            LineStep::Bad(ParseError::MissingSpaceAfterVersion)
        } else {
            let d_end = skip_digits(b, s1);
            if d_end == b.len() {
                LineStep::More
            } else if d_end == s1 || digits_value(b, s1, d_end) > 65535 {
                LineStep::Bad(ParseError::BadStatusCode)
            } else {
                let s2 = skip_sp(b, d_end);
                if s2 == b.len() {
                    LineStep::More
                } else if s2 == d_end {
                    LineStep::Bad(ParseError::MissingSpaceAfterStatus)
                } else {
                    match find_from(b, s2, crlf()) {
                        None => LineStep::More,
                        Some(t_end) => if !is_utf8(b.subrange(s2, t_end)) {
                            LineStep::Bad(ParseError::BadStatusText)
                        } else {
                            LineStep::Done(
                                StatusLine {
                                    status: digits_value(b, s1, d_end),
                                    text: b.subrange(s2, t_end),
                                    after: t_end + 2,
                                },
                            )
                        },
                    }
                }
            }
        }
    }
}

/// Outcome of parsing the header lines from a position to the blank line.
#[verifier::ext_equal]
pub enum HeadersStep {
    Done { end: int, headers: Seq<(Seq<u8>, Seq<u8>)> },
    More,
    Bad(ParseError),
}

/// Parse header lines `name:<sp>*value\r\n` from position `i` up to and
/// including the blank line that ends the header block.
pub open spec fn parse_headers(b: Seq<u8>, i: int) -> HeadersStep
    decreases b.len() - i,
{
    if i < 0 || i > b.len() {
        HeadersStep::More
    } else if match_at(b, i, crlf()) {
        HeadersStep::Done { end: i + 2, headers: Seq::empty() }
    } else if i == b.len() || (i + 1 == b.len() && b[i] == 13u8) {
        HeadersStep::More
    } else {
        match find_from(b, i, seq![58u8]) {
            None => HeadersStep::More,
            Some(jc) => {
                let name = b.subrange(i, jc);
                if !is_utf8(name) {
                    HeadersStep::Bad(ParseError::BadHeaderName)
                } else {
                    let v0 = skip_sp(b, jc + 1);
                    match find_from(b, v0, crlf()) {
                        None => HeadersStep::More,
                        Some(jv) => {
                            let value = b.subrange(v0, jv);
                            if !is_utf8(value) {
                                HeadersStep::Bad(ParseError::BadHeaderValue)
                            } else if i < jv + 2 && jv + 2 <= b.len() {
                                match parse_headers(b, jv + 2) {
                                    HeadersStep::Done { end, headers } => HeadersStep::Done {
                                        end,
                                        headers: seq![(name, value)] + headers,
                                    },
                                    o => o,
                                }
                            } else {
                                HeadersStep::More
                            }
                        },
                    }
                }
            },
        }
    }
}

/// What parsing a buffer yields: the full status-line-and-headers grammar.
pub open spec fn spec_parse(b: Seq<u8>) -> SpecOutcome {
    match parse_status_line(b) {
        LineStep::More => SpecOutcome::Incomplete,
        LineStep::Bad(e) => SpecOutcome::Malformed(e),
        LineStep::Done(sl) => match parse_headers(b, sl.after) {
            HeadersStep::More => SpecOutcome::Incomplete,
            HeadersStep::Bad(e) => SpecOutcome::Malformed(e),
            HeadersStep::Done { end, headers } => SpecOutcome::Complete {
                end,
                response: SpecResponse { status: sl.status, status_text: sl.text, headers },
            },
        },
    }
}

/// The byte at position `k` of the literal `HTTP/1.1`.
fn http11_byte(k: usize) -> (c: u8)
    requires
        k < 8,
    ensures
        c == http11_lit()[k as int],
{
    if k == 0 {
        72
    } else if k == 1 {
        84
    } else if k == 2 {
        84
    } else if k == 3 {
        80
    } else if k == 4 {
        47
    } else if k == 5 {
        49
    } else if k == 6 {
        46
    } else {
        49
    }
}

/// Scan the digit run starting at `from`; the returned value saturates
/// above the largest status code rather than overflowing.
fn scan_number(b: &[u8], from: usize) -> (r: (usize, u32))
    requires
        from <= b@.len(),
    ensures
        from <= r.0 <= b@.len(),
        r.0 == skip_digits(b@, from as int),
        r.1 <= 65535 ==> r.1 == digits_value(b@, from as int, r.0 as int),
        r.1 > 65535 <==> digits_value(b@, from as int, r.0 as int) > 65535,
{
    let n: usize = b.len();
    let mut j: usize = from;
    let mut val: u32 = 0;
    while j < n && digit_at(b, j)
        invariant
            from <= j <= n,
            n == b@.len(),
            skip_digits(b@, from as int) == skip_digits(b@, j as int),
            forall|m: int| from <= m < j ==> #[trigger] is_digit(b@[m]),
            val <= 655359,
            val <= 65535 ==> val == digits_value(b@, from as int, j as int),
            val > 65535 <==> digits_value(b@, from as int, j as int) > 65535,
        decreases n - j,
    {
        let c: u8 = *vstd::slice::slice_index_get(b, j);
        proof {
            assert(is_digit(b@[j as int]));
            assert(skip_digits(b@, j as int) == skip_digits(b@, j + 1));
            assert(digits_value(b@, from as int, j + 1) == digits_value(b@, from as int, j as int)
                * 10 + (b@[j as int] - 48));
            lemma_digits_value_nonneg(b@, from as int, j as int);
        }
        let d: u8 = c - 48;
        if val <= 65535 {
            val = val * 10 + (d as u32);
        }
        j += 1;
    }
    proof {
        assert(skip_digits(b@, j as int) == j as int);
    }
    (j, val)
}

/// Copy the bytes `b[from..to)` into an owned vector.
pub fn copy_range(b: &[u8], from: usize, to: usize) -> (r: Vec<u8>)
    requires
        from <= to <= b@.len(),
    ensures
        r@ == b@.subrange(from as int, to as int),
{
    slice_to_vec(slice_subrange(b, from, to))
}

/// Parse one HTTP/1.1 status line plus header block from the accumulated
/// buffer. The outcome is exactly `spec_parse` of these bytes: complete
/// with the response and the offset where the body starts, needing more
/// bytes, or malformed.
pub fn response(i: &[u8]) -> (r: Outcome)
    ensures
        r@ == spec_parse(i@),
{
    let n: usize = i.len();

    // Literal `HTTP/1.1`.
    let mut k: usize = 0;
    while k < 8 && k < n
        invariant
            k <= 8,
            k <= n,
            n == i@.len(),
            forall|m: int| 0 <= m < k ==> i@[m] == http11_lit()[m],
        decreases 8 - k,
    {
        let c: u8 = *vstd::slice::slice_index_get(i, k);
        if c != http11_byte(k) {
            proof {
                if n < 8 {
                    assert(i@ != http11_lit().subrange(0, n as int)) by {
                        assert(http11_lit().subrange(0, n as int)[k as int] == http11_lit()[
                            k as int
                        ]);
                    }
                } else {
                    assert(i@.subrange(0, 8) != http11_lit()) by {
                        assert(i@.subrange(0, 8)[k as int] == i@[k as int]);
                    }
                }
            }
            return Outcome::Malformed(ParseError::BadVersion);
        }
        k += 1;
    }
    if k < 8 {
        proof {
            assert(i@ =~= http11_lit().subrange(0, n as int));
        }
        return Outcome::Incomplete;
    }
    proof {
        assert(i@.subrange(0, 8) =~= http11_lit());
    }

    // One or more spaces.
    let s1: usize = skip_sp_run(i, 8);
    if s1 == n {
        return Outcome::Incomplete;
    }
    if s1 == 8 {
        return Outcome::Malformed(ParseError::MissingSpaceAfterVersion);
    }

    // Decimal status code.
    let (d_end, val): (usize, u32) = scan_number(i, s1);
    if d_end == n {
        return Outcome::Incomplete;
    }
    if d_end == s1 || val > 65535 {
        return Outcome::Malformed(ParseError::BadStatusCode);
    }
    let status: u16 = val as u16;

    // One or more spaces.
    let s2: usize = skip_sp_run(i, d_end);
    if s2 == n {
        return Outcome::Incomplete;
    }
    if s2 == d_end {
        return Outcome::Malformed(ParseError::MissingSpaceAfterStatus);
    }

    // Status text up to the line terminator.
    let t_end: usize = match find2(i, s2, 13, 10) {
        None => { return Outcome::Incomplete },
        Some(t) => t,
    };
    let text_slice: &[u8] = slice_subrange(i, s2, t_end);
    if !utf8_valid(text_slice) {
        return Outcome::Malformed(ParseError::BadStatusText);
    }
    let status_text: Vec<u8> = slice_to_vec(text_slice);
    let hstart: usize = t_end + 2;
    let ghost sl = StatusLine { status: status as int, text: status_text@, after: hstart as int };
    proof {
        assert(parse_status_line(i@) == LineStep::Done(sl));
    }

    // Header lines up to the blank line.
    let mut pos: usize = hstart;
    let mut headers: Vec<(Vec<u8>, Vec<u8>)> = Vec::new();
    loop
        invariant
            n == i@.len(),
            hstart <= pos <= n,
            parse_status_line(i@) == LineStep::Done(sl),
            sl == (StatusLine { status: status as int, text: status_text@, after: hstart as int }),
            match parse_headers(i@, pos as int) {
                HeadersStep::Done { end, headers: hs } => parse_headers(i@, hstart as int)
                    == (HeadersStep::Done { end, headers: hdrs_view(headers@) + hs }),
                HeadersStep::More => parse_headers(i@, hstart as int) is More,
                HeadersStep::Bad(e) => parse_headers(i@, hstart as int) == HeadersStep::Bad(e),
            },
        decreases n - pos,
    {
        // Blank line ending the header block?
        if n - pos >= 2 {
            let c0: u8 = *vstd::slice::slice_index_get(i, pos);
            let c1: u8 = *vstd::slice::slice_index_get(i, pos + 1);
            if c0 == 13 && c1 == 10 {
                proof {
                    assert(i@.subrange(pos as int, pos + 2) =~= crlf());
                    assert(match_at(i@, pos as int, crlf()));
                    assert(parse_headers(i@, pos as int) == (HeadersStep::Done {
                        end: pos + 2,
                        headers: Seq::<(Seq<u8>, Seq<u8>)>::empty(),
                    }));
                    assert(hdrs_view(headers@) + Seq::<(Seq<u8>, Seq<u8>)>::empty() =~= hdrs_view(
                        headers@,
                    ));
                }
                return Outcome::Complete {
                    body_offset: pos + 2,
                    response: Response { status, status_text, headers },
                };
            }
        }
        proof {
            if match_at(i@, pos as int, crlf()) {
                assert(i@.subrange(pos as int, pos + 2)[0] == crlf()[0]);
                assert(i@.subrange(pos as int, pos + 2)[1] == crlf()[1]);
            }
            assert(!match_at(i@, pos as int, crlf()));
        }
        if pos == n {
            return Outcome::Incomplete;
        }
        if n - pos == 1 {
            let c0: u8 = *vstd::slice::slice_index_get(i, pos);
            if c0 == 13 {
                return Outcome::Incomplete;
            }
        }

        // Header name up to the colon.
        let jc: usize = match find1(i, pos, 58) {
            None => { return Outcome::Incomplete },
            Some(t) => t,
        };
        let name_slice: &[u8] = slice_subrange(i, pos, jc);
        if !utf8_valid(name_slice) {
            return Outcome::Malformed(ParseError::BadHeaderName);
        }

        // Optional spaces, then the value up to the line terminator.
        let v0: usize = skip_sp_run(i, jc + 1);
        let jv: usize = match find2(i, v0, 13, 10) {
            None => { return Outcome::Incomplete },
            Some(t) => t,
        };
        let value_slice: &[u8] = slice_subrange(i, v0, jv);
        if !utf8_valid(value_slice) {
            return Outcome::Malformed(ParseError::BadHeaderValue);
        }
        let name: Vec<u8> = slice_to_vec(name_slice);
        let value: Vec<u8> = slice_to_vec(value_slice);
        let ghost old_headers = headers@;
        let ghost old_pos = pos as int;
        headers.push((name, value));
        proof {
            assert(hdrs_view(headers@) =~= hdrs_view(old_headers) + seq![
                (i@.subrange(old_pos, jc as int), i@.subrange(v0 as int, jv as int)),
            ]);
            match parse_headers(i@, jv + 2) {
                HeadersStep::Done { end, headers: hs } => {
                    assert(hdrs_view(old_headers) + (seq![
                        (i@.subrange(old_pos, jc as int), i@.subrange(v0 as int, jv as int)),
                    ] + hs) =~= hdrs_view(headers@) + hs);
                },
                _ => {},
            }
        }
        pos = jv + 2;
    }
}


/// The header-block end position of a completed parse.
pub open spec fn outcome_end(o: SpecOutcome) -> int {
    match o {
        SpecOutcome::Complete { end, .. } => end,
        _ => -1,
    }
}

/// The response of a completed parse.
pub open spec fn outcome_response(o: SpecOutcome) -> SpecResponse {
    match o {
        SpecOutcome::Complete { response, .. } => response,
        _ => SpecResponse { status: 0, status_text: Seq::empty(), headers: Seq::empty() },
    }
}

/// The end position of a completed header-block parse.
pub open spec fn headers_end(h: HeadersStep) -> int {
    match h {
        HeadersStep::Done { end, .. } => end,
        _ => -1,
    }
}

/// A completed header-block parse ends past its start and within the
/// buffer.
pub proof fn lemma_headers_bounds(b: Seq<u8>, i: int)
    requires
        0 <= i <= b.len(),
    ensures
        match parse_headers(b, i) {
            HeadersStep::Done { end, .. } => i + 2 <= end <= b.len(),
            _ => true,
        },
    decreases b.len() - i,
{
    if match_at(b, i, crlf()) {
    } else if i == b.len() || (i + 1 == b.len() && b[i] == 13u8) {
    } else {
        lemma_find_from_char(b, i, seq![58u8]);
        match find_from(b, i, seq![58u8]) {
            None => {},
            Some(jc) => {
                lemma_skip_sp_bounds(b, jc + 1);
                let v0: int = skip_sp(b, jc + 1);
                lemma_find_from_char(b, v0, crlf());
                match find_from(b, v0, crlf()) {
                    None => {},
                    Some(jv) => {
                        if i < jv + 2 && jv + 2 <= b.len() {
                            lemma_headers_bounds(b, jv + 2);
                        }
                    },
                }
            },
        }
    }
}

/// A completed status line ends past the shortest possible line and
/// within the buffer, and its code fits in sixteen bits.
pub proof fn lemma_status_line_bounds(b: Seq<u8>)
    ensures
        match parse_status_line(b) {
            LineStep::Done(sl) => 13 <= sl.after <= b.len() && 0 <= sl.status <= 65535,
            _ => true,
        },
{
    if b.len() >= 8 && b.subrange(0, 8) == http11_lit() {
        lemma_skip_sp_bounds(b, 8);
        let s1: int = skip_sp(b, 8);
        if 8 < s1 < b.len() {
            lemma_skip_digits_bounds(b, s1);
            lemma_skip_digits_run(b, s1);
            let d_end: int = skip_digits(b, s1);
            if s1 < d_end < b.len() {
                lemma_digits_value_nonneg(b, s1, d_end);
                lemma_skip_sp_bounds(b, d_end);
                let s2: int = skip_sp(b, d_end);
                if d_end < s2 < b.len() {
                    lemma_find_from_char(b, s2, crlf());
                }
            }
        }
    }
}

/// A completed parse ends within the buffer.
pub proof fn lemma_parse_bounds(b: Seq<u8>)
    ensures
        match spec_parse(b) {
            SpecOutcome::Complete { end, .. } => 13 <= end <= b.len(),
            _ => true,
        },
{
    lemma_status_line_bounds(b);
    match parse_status_line(b) {
        LineStep::Done(sl) => {
            lemma_headers_bounds(b, sl.after);
        },
        _ => {},
    }
}

/// A completed status line is unchanged when the buffer is extended.
pub proof fn lemma_status_line_extend(b: Seq<u8>, b2: Seq<u8>)
    requires
        b.len() <= b2.len(),
        b2.subrange(0, b.len() as int) == b,
        parse_status_line(b) is Done,
    ensures
        parse_status_line(b2) == parse_status_line(b),
{
    lemma_prefix_index(b, b2);
    assert(b2.subrange(0, 8) =~= b.subrange(0, 8));
    let s1: int = skip_sp(b, 8);
    lemma_skip_sp_bounds(b, 8);
    lemma_skip_sp_extend(b, b2, 8);
    let d_end: int = skip_digits(b, s1);
    lemma_skip_digits_bounds(b, s1);
    lemma_skip_digits_extend(b, b2, s1);
    assert forall|m: int| s1 <= m < d_end implies b[m] == b2[m] by {}
    lemma_digits_value_same(b, b2, s1, d_end);
    let s2: int = skip_sp(b, d_end);
    lemma_skip_sp_extend(b, b2, d_end);
    match find_from(b, s2, crlf()) {
        None => {
            assert(false);
        },
        Some(t_end) => {
            lemma_find_from_char(b, s2, crlf());
            lemma_find_from_extend(b, b2, s2, crlf());
            assert(b2.subrange(s2, t_end) =~= b.subrange(s2, t_end));
        },
    }
}

/// A completed header-block parse is unchanged when the buffer is
/// extended.
pub proof fn lemma_headers_extend(b: Seq<u8>, b2: Seq<u8>, i: int)
    requires
        b.len() <= b2.len(),
        b2.subrange(0, b.len() as int) == b,
        0 <= i <= b.len(),
        parse_headers(b, i) is Done,
    ensures
        parse_headers(b2, i) == parse_headers(b, i),
    decreases b.len() - i,
{
    lemma_prefix_index(b, b2);
    if match_at(b, i, crlf()) {
        lemma_match_at_prefix(b, b2, i, crlf());
    } else {
        lemma_find_from_char(b, i, seq![58u8]);
        match find_from(b, i, seq![58u8]) {
            None => {
                assert(false);
            },
            Some(jc) => {
                lemma_find_from_extend(b, b2, i, seq![58u8]);
                assert(b2.subrange(i, jc) =~= b.subrange(i, jc));
                let v0: int = skip_sp(b, jc + 1);
                lemma_skip_sp_bounds(b, jc + 1);
                match find_from(b, v0, crlf()) {
                    None => {
                        assert(false);
                    },
                    Some(jv) => {
                        lemma_find_from_char(b, v0, crlf());
                        assert(v0 < b.len());
                        lemma_skip_sp_extend(b, b2, jc + 1);
                        lemma_find_from_extend(b, b2, v0, crlf());
                        assert(b2.subrange(v0, jv) =~= b.subrange(v0, jv));
                        assert(jv + 2 <= b.len() && i + 2 <= b.len());
                        lemma_match_at_prefix(b, b2, i, crlf());
                        lemma_headers_extend(b, b2, jv + 2);
                        assert(seq![(b2.subrange(i, jc), b2.subrange(v0, jv))] =~= seq![
                            (b.subrange(i, jc), b.subrange(v0, jv)),
                        ]);
                    },
                }
            },
        }
    }
}

/// Once a buffer parses completely, every extension of it parses to the
/// same response with the same body offset: reparsing a longer buffer
/// never regresses and never changes a reported result.
pub proof fn lemma_parse_extend(b: Seq<u8>, b2: Seq<u8>)
    requires
        (spec_parse(b) is Complete),
        b.len() <= b2.len(),
        b2.subrange(0, b.len() as int) == b,
    ensures
        spec_parse(b2) == spec_parse(b),
{
    lemma_status_line_extend(b, b2);
    match parse_status_line(b) {
        LineStep::Done(sl) => {
            lemma_status_line_bounds(b);
            lemma_headers_extend(b, b2, sl.after);
        },
        _ => {
            assert(false);
        },
    }
}

/// On a prefix of a buffer with a complete status line, the parse either
/// needs more bytes (the prefix ends inside the line) or yields the very
/// same line.
pub proof fn lemma_status_line_prefix(b: Seq<u8>, n: int)
    requires
        parse_status_line(b) is Done,
        0 <= n <= b.len(),
    ensures
        match parse_status_line(b) {
            LineStep::Done(sl) => if n < sl.after {
                parse_status_line(b.subrange(0, n)) is More
            } else {
                parse_status_line(b.subrange(0, n)) == parse_status_line(b)
            },
            _ => true,
        },
{
    let p = b.subrange(0, n);
    assert(b.subrange(0, p.len() as int) == p);
    lemma_prefix_index(p, b);
    lemma_status_line_bounds(b);
    match parse_status_line(b) {
        LineStep::Done(sl) => {
            let s1: int = skip_sp(b, 8);
            let d_end: int = skip_digits(b, s1);
            let s2: int = skip_sp(b, d_end);
            lemma_skip_sp_bounds(b, 8);
            lemma_skip_digits_bounds(b, s1);
            lemma_skip_sp_bounds(b, d_end);
            lemma_find_from_char(b, s2, crlf());
            if n < 8 {
                assert forall|m: int| 0 <= m < n implies p[m] == http11_lit().subrange(
                    0,
                    n,
                )[m] by {
                    assert(b.subrange(0, 8)[m] == b[m]);
                }
                assert(p =~= http11_lit().subrange(0, n));
                assert(parse_status_line(p) is More);
            } else {
                assert forall|m: int| 0 <= m < 8 implies p.subrange(0, 8)[m] == http11_lit()[
                    m
                ] by {
                    assert(b.subrange(0, 8)[m] == b[m]);
                }
                assert(p.subrange(0, 8) =~= http11_lit());
                lemma_skip_sp_restrict(b, n, 8);
                if s1 >= n {
                    assert(skip_sp(p, 8) == n);
                    assert(parse_status_line(p) is More);
                } else {
                    lemma_skip_digits_restrict(b, n, s1);
                    if d_end >= n {
                        assert(skip_digits(p, s1) == n);
                        assert(parse_status_line(p) is More);
                    } else {
                        lemma_digits_value_same(p, b, s1, d_end);
                        lemma_skip_sp_restrict(b, n, d_end);
                        if s2 >= n {
                            assert(skip_sp(p, d_end) == n);
                            assert(parse_status_line(p) is More);
                        } else {
                            match find_from(b, s2, crlf()) {
                                None => {
                                    assert(false);
                                },
                                Some(t_end) => {
                                    lemma_find_from_restrict(b, n, s2, crlf());
                                    if t_end + 2 <= n {
                                        assert(find_from(p, s2, crlf()) == Some(t_end));
                                        assert(p.subrange(s2, t_end) =~= b.subrange(s2, t_end));
                                        assert(parse_status_line(p) == parse_status_line(b));
                                    } else {
                                        assert(find_from(p, s2, crlf()) is None);
                                        assert(parse_status_line(p) is More);
                                    }
                                },
                            }
                        }
                    }
                }
            }
        },
        _ => {},
    }
}

/// On a prefix that ends strictly inside a complete header block, the
/// parse needs more bytes.
pub proof fn lemma_headers_prefix(b: Seq<u8>, n: int, i: int)
    requires
        0 <= i <= n <= b.len(),
        parse_headers(b, i) is Done,
        n < headers_end(parse_headers(b, i)),
    ensures
        parse_headers(b.subrange(0, n), i) is More,
    decreases b.len() - i,
{
    let p = b.subrange(0, n);
    assert(b.subrange(0, p.len() as int) == p);
    lemma_prefix_index(p, b);
    lemma_headers_bounds(b, i);
    if match_at(b, i, crlf()) {
        assert(b.subrange(i, i + 2)[0] == crlf()[0]);
        if match_at(p, i, crlf()) {
            assert(false);
        }
        if i + 1 == n {
            assert(p[i] == 13u8);
        }
        assert(parse_headers(p, i) is More);
    } else {
        match find_from(b, i, seq![58u8]) {
            None => {
                assert(false);
            },
            Some(jc) => {
                lemma_find_from_char(b, i, seq![58u8]);
                let v0: int = skip_sp(b, jc + 1);
                lemma_skip_sp_bounds(b, jc + 1);
                match find_from(b, v0, crlf()) {
                    None => {
                        assert(false);
                    },
                    Some(jv) => {
                        lemma_find_from_char(b, v0, crlf());
                        assert(v0 < b.len());
                        if match_at(p, i, crlf()) {
                            lemma_match_at_prefix(p, b, i, crlf());
                            assert(false);
                        }
                        if i == n {
                            assert(parse_headers(p, i) is More);
                        } else if i + 1 == n && p[i] == 13u8 {
                            assert(parse_headers(p, i) is More);
                        } else {
                            lemma_find_from_restrict(b, n, i, seq![58u8]);
                            if jc + 1 <= n {
                                assert(find_from(p, i, seq![58u8]) == Some(jc));
                                assert(p.subrange(i, jc) =~= b.subrange(i, jc));
                                lemma_skip_sp_restrict(b, n, jc + 1);
                                if v0 < n {
                                    assert(skip_sp(p, jc + 1) == v0);
                                    lemma_find_from_restrict(b, n, v0, crlf());
                                    if jv + 2 <= n {
                                        assert(find_from(p, v0, crlf()) == Some(jv));
                                        assert(p.subrange(v0, jv) =~= b.subrange(v0, jv));
                                        lemma_headers_prefix(b, n, jv + 2);
                                        assert(parse_headers(p, i) is More);
                                    } else {
                                        assert(find_from(p, v0, crlf()) is None);
                                        assert(parse_headers(p, i) is More);
                                    }
                                } else {
                                    assert(skip_sp(p, jc + 1) == n);
                                    assert(parse_headers(p, i) is More);
                                }
                            } else {
                                assert(find_from(p, i, seq![58u8]) is None);
                                assert(parse_headers(p, i) is More);
                            }
                        }
                    },
                }
            },
        }
    }
}

/// A proper prefix of a complete status-line-and-header block is reported
/// as needing more bytes, never as malformed and never as complete.
pub proof fn lemma_incomplete_never_errors(b: Seq<u8>, n: int)
    requires
        (spec_parse(b) is Complete),
        0 <= n < outcome_end(spec_parse(b)),
    ensures
        spec_parse(b.subrange(0, n)) == SpecOutcome::Incomplete,
{
    lemma_parse_bounds(b);
    lemma_status_line_bounds(b);
    match parse_status_line(b) {
        LineStep::Done(sl) => {
            lemma_status_line_prefix(b, n);
            if n >= sl.after {
                lemma_headers_prefix(b, n, sl.after);
            }
        },
        _ => {
            assert(false);
        },
    }
}

}
