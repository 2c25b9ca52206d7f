//! The exchange state machine that drives one response: it accumulates
//! the bytes read from the transport, re-parses the buffer as chunks
//! arrive, determines the body length from `Content-Length`, and frames
//! the body. Reading itself is the caller's affair: each chunk read is
//! handed to `on_read`, an empty chunk standing for end of stream.

use vstd::prelude::*;
use crate::parser::{
    copy_range, hdrs_view, lemma_parse_bounds, lemma_parse_extend, outcome_response, response,
    spec_parse, ParseError, Response, SpecOutcome, SpecResponse,
};
use crate::scan::{digits_value, is_digit, lemma_digits_value_nonneg, lemma_prefix_index};

verus! {

/// Why an exchange failed: each of these ends the exchange for good.
#[derive(Debug, Clone, Copy, PartialEq, Eq, Structural)]
pub enum ExchangeError {
    /// The accumulated bytes cannot be a prefix of any valid response.
    MalformedHeaders(ParseError),
    /// The peer closed the stream before the header block was complete.
    UnexpectedEofInHeaders,
    /// The peer closed the stream before the declared body length was
    /// reached.
    UnexpectedEofInBody,
    /// A `Content-Length` header is present but its value is not a
    /// non-negative integer that fits the platform.
    InvalidContentLength,
}

/// What one feeding step reports back to the caller driving the reads.
#[derive(Debug, PartialEq, Eq)]
pub enum StepResult {
    /// Read another chunk and feed it.
    NeedRead,
    /// The response and its complete body.
    Done { response: Response, body: Vec<u8> },
    /// The exchange failed; no further feeding is of use.
    Failed(ExchangeError),
}

/// Mathematical image of a `StepResult`.
#[verifier::ext_equal]
pub enum SpecStep {
    NeedRead,
    Done { response: SpecResponse, body: Seq<u8> },
    Failed(ExchangeError),
}

impl View for StepResult {
    type V = SpecStep;

    open spec fn view(&self) -> SpecStep {
        match self {
            StepResult::NeedRead => SpecStep::NeedRead,
            StepResult::Done { response, body } => SpecStep::Done {
                response: response@,
                body: body@,
            },
            StepResult::Failed(e) => SpecStep::Failed(*e),
        }
    }
}

/// Lower-case image of an ASCII byte; other bytes are unchanged.
pub open spec fn lower(c: u8) -> u8 {
    if 65u8 <= c && c <= 90u8 {
        (c + 32) as u8
    } else {
        c
    }
}

/// The two byte strings are equal up to ASCII case.
pub open spec fn ascii_eq_ignore_case(a: Seq<u8>, b: Seq<u8>) -> bool {
    a.len() == b.len() && (forall|k: int| 0 <= k < a.len() ==> lower(a[k]) == lower(b[k]))
}

/// The bytes of the header name `content-length`.
pub open spec fn content_length_name() -> Seq<u8> {
    seq![99u8, 111u8, 110u8, 116u8, 101u8, 110u8, 116u8, 45u8, 108u8, 101u8, 110u8, 103u8, 116u8,
        104u8]
}

/// The value of the first header whose name is `Content-Length` up to
/// ASCII case, in wire order.
pub open spec fn find_content_length(hs: Seq<(Seq<u8>, Seq<u8>)>) -> Option<Seq<u8>>
    decreases hs.len(),
{
    if hs.len() == 0 {
        None
    } else if ascii_eq_ignore_case(hs[0].0, content_length_name()) {
        Some(hs[0].1)
    } else {
        find_content_length(hs.drop_first())
    }
}

/// The digits of a decimal value, allowing one leading plus sign.
pub open spec fn cl_digits(v: Seq<u8>) -> Seq<u8> {
    if v.len() > 0 && v[0] == 43u8 {
        v.drop_first()
    } else {
        v
    }
}

/// A non-empty, all-digit byte string.
pub open spec fn is_dec_number(d: Seq<u8>) -> bool {
    d.len() > 0 && (forall|k: int| 0 <= k < d.len() ==> #[trigger] is_digit(d[k]))
}

/// The declared body length: zero when no `Content-Length` header is
/// present; the parsed value when the first such header holds a
/// non-negative integer that fits the platform; `None` when it does not.
pub open spec fn spec_content_length(hs: Seq<(Seq<u8>, Seq<u8>)>) -> Option<int> {
    match find_content_length(hs) {
        None => Some(0),
        Some(v) => {
            let d = cl_digits(v);
            if is_dec_number(d) && digits_value(d, 0, d.len() as int) <= usize::MAX as int {
                Some(digits_value(d, 0, d.len() as int))
            } else {
                None
            }
        },
    }
}

/// What the exchange reports once `fed` bytes have arrived, `eof` saying
/// whether the stream just ended.
pub open spec fn spec_outcome(fed: Seq<u8>, eof: bool) -> SpecStep {
    match spec_parse(fed) {
        SpecOutcome::Malformed(e) => SpecStep::Failed(ExchangeError::MalformedHeaders(e)),
        SpecOutcome::Incomplete => if eof {
            SpecStep::Failed(ExchangeError::UnexpectedEofInHeaders)
        } else {
            SpecStep::NeedRead
        },
        SpecOutcome::Complete { end, response } => match spec_content_length(response.headers) {
            None => SpecStep::Failed(ExchangeError::InvalidContentLength),
            Some(len) => if fed.len() - end >= len {
                SpecStep::Done { response, body: fed.subrange(end, end + len) }
            } else if eof {
                SpecStep::Failed(ExchangeError::UnexpectedEofInBody)
            } else {
                SpecStep::NeedRead
            },
        },
    }
}

/// The byte at position `k` of the name `content-length`, which has no
/// upper-case letter.
fn cl_name_byte(k: usize) -> (c: u8)
    requires
        k < 14,
    ensures
        c == content_length_name()[k as int],
        lower(c) == c,
{
    if k == 0 {
        99
    } else if k == 1 {
        111
    } else if k == 2 {
        110
    } else if k == 3 {
        116
    } else if k == 4 {
        101
    } else if k == 5 {
        110
    } else if k == 6 {
        116
    } else if k == 7 {
        45
    } else if k == 8 {
        108
    } else if k == 9 {
        101
    } else if k == 10 {
        110
    } else if k == 11 {
        103
    } else if k == 12 {
        116
    } else {
        104
    }
}

/// Whether a header name is `Content-Length` up to ASCII case.
fn cl_name_matches(name: &Vec<u8>) -> (r: bool)
    ensures
        r == ascii_eq_ignore_case(name@, content_length_name()),
{
    if name.len() != 14 {
        return false;
    }
    let mut k: usize = 0;
    while k < 14
        invariant
            0 <= k <= 14,
            name@.len() == 14,
            forall|m: int| 0 <= m < k ==> lower(name@[m]) == lower(content_length_name()[m]),
        decreases 14 - k,
    {
        let c: u8 = name[k];
        let lc: u8 = if 65 <= c && c <= 90 {
            c + 32
        } else {
            c
        };
        let e: u8 = cl_name_byte(k);
        if lc != e {
            proof {
                assert(lower(name@[k as int]) == lc);
                assert(lower(content_length_name()[k as int]) == e);
                assert(!ascii_eq_ignore_case(name@, content_length_name()));
            }
            return false;
        }
        k += 1;
    }
    true
}

/// Parse a `Content-Length` value: an optional plus sign, then digits;
/// `None` when the text is not such a number or its value does not fit.
fn parse_cl_value(v: &Vec<u8>) -> (r: Option<usize>)
    ensures
        ({
            let d = cl_digits(v@);
            match r {
                Some(len) => is_dec_number(d) && digits_value(d, 0, d.len() as int) == len as int,
                None => !(is_dec_number(d) && digits_value(d, 0, d.len() as int) <= usize::MAX
                    as int),
            }
        }),
{
    let n: usize = v.len();
    let start: usize = if n > 0 && v[0] == 43u8 {
        1
    } else {
        0
    };
    let ghost d = cl_digits(v@);
    proof {
        assert(d.len() == n - start);
        assert(forall|m: int| 0 <= m < d.len() ==> d[m] == v@[m + start]);
    }
    if n == start {
        return None;
    }
    let mut k: usize = start;
    let mut val: u128 = 0;
    let ghost cap = usize::MAX as u128;
    while k < n
        invariant
            start <= k <= n,
            n == v@.len(),
            start <= 1,
            d == cl_digits(v@),
            d.len() == n - start,
            forall|m: int| 0 <= m < d.len() ==> d[m] == v@[m + start],
            forall|m: int| 0 <= m < k - start ==> #[trigger] is_digit(d[m]),
            cap == usize::MAX as u128,
            val <= cap * 10 + 9,
            val <= cap ==> val == digits_value(d, 0, k - start),
            val > cap <==> digits_value(d, 0, k - start) > cap,
        decreases n - k,
    {
        let c: u8 = v[k];
        if !(48u8 <= c && c <= 57u8) {
            proof {
                assert(d[k - start] == v@[k as int]);
                assert(!is_digit(d[k - start]));
            }
            return None;
        }
        proof {
            assert(d[k - start] == v@[k as int]);
            assert(is_digit(d[k - start]));
            assert(digits_value(d, 0, k - start + 1) == digits_value(d, 0, k - start) * 10 + (d[k
                - start] - 48));
            lemma_digits_value_nonneg(d, 0, k - start);
        }
        let dg: u8 = c - 48;
        if val <= usize::MAX as u128 {
            val = val * 10 + (dg as u128);
        }
        k += 1;
    }
    proof {
        assert(is_dec_number(d));
    }
    if val > usize::MAX as u128 {
        None
    } else {
        Some(val as usize)
    }
}

/// The declared body length of a header list: zero without a
/// `Content-Length` header, its value when the first one parses, and
/// `InvalidContentLength` when it does not.
pub fn content_length(headers: &Vec<(Vec<u8>, Vec<u8>)>) -> (r: Result<usize, ExchangeError>)
    ensures
        match r {
            Ok(len) => spec_content_length(hdrs_view(headers@)) == Some(len as int),
            Err(e) => (spec_content_length(hdrs_view(headers@)) is None) && e
                == ExchangeError::InvalidContentLength,
        },
{
    let ghost hv = hdrs_view(headers@);
    proof {
        assert(hv.subrange(0, hv.len() as int) =~= hv);
    }
    let n: usize = headers.len();
    let mut idx: usize = 0;
    while idx < n
        invariant
            0 <= idx <= n,
            n == headers@.len(),
            hv == hdrs_view(headers@),
            find_content_length(hv) == find_content_length(
                hv.subrange(idx as int, hv.len() as int),
            ),
        decreases n - idx,
    {
        let name_matches: bool = cl_name_matches(&headers[idx].0);
        proof {
            assert(hv.subrange(idx as int, hv.len() as int)[0] == hv[idx as int]);
            assert(hv[idx as int] == (headers@[idx as int].0@, headers@[idx as int].1@));
        }
        if name_matches {
            proof {
                assert(find_content_length(hv) == Some(headers@[idx as int].1@));
            }
            let parsed: Option<usize> = parse_cl_value(&headers[idx].1);
            match parsed {
                Some(len) => {
                    return Ok(len);
                },
                None => {
                    return Err(ExchangeError::InvalidContentLength);
                },
            }
        }
        proof {
            assert(hv.subrange(idx as int, hv.len() as int).drop_first() =~= hv.subrange(
                idx + 1,
                hv.len() as int,
            ));
        }
        idx += 1;
    }
    proof {
        assert(hv.subrange(n as int, hv.len() as int).len() == 0);
    }
    Ok(0)
}

/// One response exchange: the accumulation buffer of all bytes read so
/// far, and whether a terminal result has been reported. There is no way
/// out of a terminal state.
pub struct Exchange {
    buf: Vec<u8>,
    finished: bool,
}

impl Exchange {
    /// All bytes fed to this exchange so far.
    pub closed spec fn fed(&self) -> Seq<u8> {
        self.buf@
    }

    /// Whether the exchange has reported `Done` or `Failed`.
    pub closed spec fn is_finished(&self) -> bool {
        self.finished
    }

    /// A fresh exchange with an empty accumulation buffer.
    pub fn new() -> (r: Exchange)
        ensures
            r.fed() == Seq::<u8>::empty(),
            !r.is_finished(),
    {
        Exchange { buf: Vec::new(), finished: false }
    }

    /// Feed the next chunk read from the stream; an empty chunk means the
    /// stream ended. The report is exactly `spec_outcome` of all bytes
    /// fed so far: keep reading, the response with its complete body, or
    /// one of the four failures.
    pub fn on_read(&mut self, chunk: &[u8]) -> (r: StepResult)
        requires
            !old(self).is_finished(),
        ensures
            final(self).fed() == old(self).fed() + chunk@,
            r@ == spec_outcome(final(self).fed(), chunk@.len() == 0),
            final(self).is_finished() == !(r@ is NeedRead),
    {
        let eof: bool = chunk.len() == 0;
        let mut k: usize = 0;
        while k < chunk.len()
            invariant
                0 <= k <= chunk@.len(),
                self.buf@ == old(self).buf@ + chunk@.subrange(0, k as int),
                self.finished == old(self).finished,
            decreases chunk@.len() - k,
        {
            self.buf.push(*vstd::slice::slice_index_get(chunk, k));
            proof {
                assert(old(self).buf@ + chunk@.subrange(0, k + 1) =~= (old(self).buf@
                    + chunk@.subrange(0, k as int)).push(chunk@[k as int]));
            }
            k += 1;
        }
        proof {
            assert(chunk@.subrange(0, chunk@.len() as int) =~= chunk@);
        }
        let parsed: crate::parser::Outcome = response(self.buf.as_slice());
        match parsed {
            crate::parser::Outcome::Incomplete => {
                if eof {
                    self.finished = true;
                    StepResult::Failed(ExchangeError::UnexpectedEofInHeaders)
                } else {
                    StepResult::NeedRead
                }
            },
            crate::parser::Outcome::Malformed(e) => {
                self.finished = true;
                StepResult::Failed(ExchangeError::MalformedHeaders(e))
            },
            crate::parser::Outcome::Complete { body_offset, response: resp } => {
                proof {
                    lemma_parse_bounds(self.buf@);
                }
                match content_length(&resp.headers) {
                    Err(e) => {
                        self.finished = true;
                        StepResult::Failed(e)
                    },
                    Ok(len) => {
                        if self.buf.len() - body_offset >= len {
                            let body: Vec<u8> = copy_range(
                                self.buf.as_slice(),
                                body_offset,
                                body_offset + len,
                            );
                            self.finished = true;
                            StepResult::Done { response: resp, body }
                        } else if eof {
                            self.finished = true;
                            StepResult::Failed(ExchangeError::UnexpectedEofInBody)
                        } else {
                            StepResult::NeedRead
                        }
                    },
                }
            },
        }
    }
}


/// Two byte strings equal up to ASCII case compare equally, up to case,
/// against any third.
pub proof fn lemma_ci_equal_trans(a: Seq<u8>, b: Seq<u8>, c: Seq<u8>)
    requires
        ascii_eq_ignore_case(a, b),
    ensures
        ascii_eq_ignore_case(a, c) == ascii_eq_ignore_case(b, c),
{
    if ascii_eq_ignore_case(a, c) {
        assert forall|k: int| 0 <= k < b.len() implies lower(b[k]) == lower(c[k]) by {
            assert(lower(a[k]) == lower(b[k]));
            assert(lower(a[k]) == lower(c[k]));
        }
    } else if ascii_eq_ignore_case(b, c) {
        assert forall|k: int| 0 <= k < a.len() implies lower(a[k]) == lower(c[k]) by {
            assert(lower(a[k]) == lower(b[k]));
            assert(lower(b[k]) == lower(c[k]));
        }
    }
}

/// Changing only the ASCII case of header names changes nothing about
/// the `Content-Length` lookup: `content-length` and `Content-Length`
/// are recognized identically.
pub proof fn lemma_lookup_case_insensitive(h1: Seq<(Seq<u8>, Seq<u8>)>, h2: Seq<(Seq<u8>, Seq<u8>)>)
    requires
        h1.len() == h2.len(),
        forall|k: int| 0 <= k < h1.len() ==> #[trigger] ascii_eq_ignore_case(h1[k].0, h2[k].0),
        forall|k: int| 0 <= k < h1.len() ==> (#[trigger] h1[k]).1 == h2[k].1,
    ensures
        find_content_length(h1) == find_content_length(h2),
        spec_content_length(h1) == spec_content_length(h2),
    decreases h1.len(),
{
    if h1.len() > 0 {
        lemma_ci_equal_trans(h1[0].0, h2[0].0, content_length_name());
        if !ascii_eq_ignore_case(h1[0].0, content_length_name()) {
            let t1 = h1.drop_first();
            let t2 = h2.drop_first();
            assert forall|k: int|
                0 <= k < t1.len() implies #[trigger] ascii_eq_ignore_case(t1[k].0, t2[k].0) by {
                assert(t1[k] == h1[k + 1]);
                assert(t2[k] == h2[k + 1]);
                assert(ascii_eq_ignore_case(h1[k + 1].0, h2[k + 1].0));
            }
            assert forall|k: int| 0 <= k < t1.len() implies (#[trigger] t1[k]).1 == t2[k].1 by {
                assert(t1[k] == h1[k + 1]);
                assert(t2[k] == h2[k + 1]);
                assert(h1[k + 1].1 == h2[k + 1].1);
            }
            lemma_lookup_case_insensitive(t1, t2);
        }
    }
}

/// A declared body length is never negative.
pub proof fn lemma_content_length_nonneg(hs: Seq<(Seq<u8>, Seq<u8>)>)
    ensures
        match spec_content_length(hs) {
            Some(len) => len >= 0,
            None => true,
        },
{
    match find_content_length(hs) {
        None => {},
        Some(v) => {
            let d = cl_digits(v);
            if is_dec_number(d) {
                lemma_digits_value_nonneg(d, 0, d.len() as int);
            }
        },
    }
}

/// How the stream is split into chunks cannot change the outcome: once
/// the exchange is done on some prefix of the bytes read, feeding any
/// further bytes reports the same response and the same body, so chunked
/// delivery and one single read agree.
pub proof fn lemma_incremental_equivalence(fed1: Seq<u8>, fed2: Seq<u8>, eof1: bool, eof2: bool)
    requires
        (spec_outcome(fed1, eof1) is Done),
        fed1.len() <= fed2.len(),
        fed2.subrange(0, fed1.len() as int) == fed1,
    ensures
        spec_outcome(fed2, eof2) == spec_outcome(fed1, eof1),
{
    lemma_parse_bounds(fed1);
    lemma_parse_extend(fed1, fed2);
    lemma_prefix_index(fed1, fed2);
    match spec_parse(fed1) {
        SpecOutcome::Complete { end, response } => {
            lemma_content_length_nonneg(response.headers);
            match spec_content_length(response.headers) {
                Some(len) => {
                    assert(fed2.subrange(end, end + len) =~= fed1.subrange(end, end + len));
                },
                None => {
                    assert(false);
                },
            }
        },
        _ => {
            assert(false);
        },
    }
}

/// With no `Content-Length` header the declared body length is zero, so
/// the exchange is done with an empty body as soon as the header block
/// is complete, whatever else the stream carries.
pub proof fn lemma_default_body_empty(fed: Seq<u8>, eof: bool)
    requires
        (spec_parse(fed) is Complete),
        (find_content_length(outcome_response(spec_parse(fed)).headers) is None),
    ensures
        spec_outcome(fed, eof) == (SpecStep::Done {
            response: outcome_response(spec_parse(fed)),
            body: Seq::<u8>::empty(),
        }),
{
    lemma_parse_bounds(fed);
    match spec_parse(fed) {
        SpecOutcome::Complete { end, response } => {
            assert(fed.subrange(end, end + 0) =~= Seq::<u8>::empty());
        },
        _ => {
            assert(false);
        },
    }
}

}
