//! The load balancer's HTTP/1.1 framing: finding a request in a connection's
//! buffer, reading its request line and `Content-Length`, and writing the
//! JSON answer that comes back from a worker.
use vstd::prelude::*;
use vstd::string::{StringSliceAdditionalSpecFns, is_ascii};

use crate::response::decimal;
use crate::bytes::u32_be_at;
use crate::umbral::{UmbralStatus, frame_len, request_frame, spec_frame_header, spec_status_from_byte};

verus! {

broadcast use vstd::slice::group_slice_axioms;

/// A request head longer than this without its blank line is refused.
pub const MAX_HEADER_LEN: usize = 8192;
/// A body longer than this is refused.
pub const MAX_BODY_LEN: usize = 65536;

/// What the front of a connection's buffer holds.
#[derive(Debug, Clone, Copy, PartialEq, Eq, Structural)]
pub enum ParsedRequest {
    Ready,
    FraudScore { body_start: usize, body_len: usize, total_len: usize },
    NotFound,
    BadRequest,
    Incomplete,
}

/// The parts of a request head the balancer reads.
#[derive(Debug, Clone, Copy, PartialEq, Eq, Structural)]
pub struct RequestHead {
    pub is_ready: bool,
    pub is_fraud_score: bool,
    pub content_length: usize,
}

/// Why a request head was refused.
#[derive(Debug, Clone, Copy, PartialEq, Eq, Structural)]
pub enum HttpError {
    InvalidRequestLine,
    InvalidContentLength,
    ContentLengthOverflow,
}

impl HttpError {
    pub fn message(&self) -> (r: &'static str)
        ensures
            r@ == match self {
                HttpError::InvalidRequestLine => "invalid request line"@,
                HttpError::InvalidContentLength => "invalid content length"@,
                HttpError::ContentLengthOverflow => "content length overflow"@,
            },
    {
        match self {
            HttpError::InvalidRequestLine => "invalid request line",
            HttpError::InvalidContentLength => "invalid content length",
            HttpError::ContentLengthOverflow => "content length overflow",
        }
    }
}

/// `pattern` occurs in `s` at `p`.
pub open spec fn at(s: Seq<u8>, p: int, pattern: Seq<u8>) -> bool {
    0 <= p && p + pattern.len() <= s.len() && s.subrange(p, p + pattern.len()) == pattern
}

/// `\r\n\r\n`.
pub open spec fn blank_line() -> Seq<u8> {
    seq![13u8, 10, 13, 10]
}

/// `\r\n`.
pub open spec fn line_break() -> Seq<u8> {
    seq![13u8, 10]
}

/// The first place `pattern` occurs in `s`.
#[verifier::opaque]
pub open spec fn first_at(s: Seq<u8>, pattern: Seq<u8>) -> Option<int> {
    if exists|p: int| #[trigger] at(s, p, pattern) {
        Some(choose|p: int| at(s, p, pattern) && forall|q: int| 0 <= q < p ==> !#[trigger] at(s, q, pattern))
    } else {
        None
    }
}

proof fn lemma_first_at(s: Seq<u8>, pattern: Seq<u8>, p: int)
    requires
        at(s, p, pattern),
        forall|q: int| 0 <= q < p ==> !#[trigger] at(s, q, pattern),
    ensures
        first_at(s, pattern) == Some(p),
{
    reveal(first_at);
    let c = choose|c: int| at(s, c, pattern) && forall|q: int| 0 <= q < c ==> !#[trigger] at(s, q, pattern);
    assert(at(s, c, pattern));
    if c < p {
        assert(!at(s, c, pattern));
    } else if c > p {
        assert(!at(s, p, pattern));
    }
}

/// Whether `pattern` occurs in `s` at `p`.
fn bytes_at(s: &[u8], p: usize, pattern: &[u8]) -> (r: bool)
    ensures
        r == at(s@, p as int, pattern@),
{
    if p > s.len() || pattern.len() > s.len() - p {
        return false;
    }
    let mut k: usize = 0;
    while k < pattern.len()
        invariant
            p + pattern.len() <= s.len(),
            k <= pattern@.len(),
            forall|j: int| 0 <= j < k ==> s@[p + j] == pattern@[j],
        decreases pattern@.len() - k,
    {
        if s[p + k] != pattern[k] {
            assert(s@.subrange(p as int, p + pattern@.len())[k as int] != pattern@[k as int]);
            return false;
        }
        k = k + 1;
    }
    assert(s@.subrange(p as int, p + pattern@.len()) =~= pattern@);
    true
}

/// The first place `pattern` occurs in `s`, searching from the start.
fn find(s: &[u8], pattern: &[u8]) -> (r: Option<usize>)
    requires
        pattern@.len() > 0,
    ensures
        r matches Some(p) ==> first_at(s@, pattern@) == Some(p as int) && at(s@, p as int, pattern@),
        r is None ==> first_at(s@, pattern@) is None,
{
    let mut p: usize = 0;
    while p < s.len()
        invariant
            pattern@.len() > 0,
            p <= s@.len(),
            forall|q: int| 0 <= q < p ==> !#[trigger] at(s@, q, pattern@),
        decreases s@.len() - p,
    {
        if bytes_at(s, p, pattern) {
            proof {
                lemma_first_at(s@, pattern@, p as int);
            }
            return Some(p);
        }
        p = p + 1;
    }
    assert forall|q: int| !#[trigger] at(s@, q, pattern@) by {
        if q >= p {
            assert(!(q + pattern@.len() <= s@.len()));
        }
    }
    reveal(first_at);
    None
}

/// Where the request head ends: the first `\r\n\r\n`.
pub fn find_header_end(buffer: &[u8]) -> (r: Option<usize>)
    ensures
        r matches Some(p) ==> first_at(buffer@, blank_line()) == Some(p as int) && at(buffer@, p as int, blank_line()),
        r is None ==> first_at(buffer@, blank_line()) is None,
{
    let pattern: [u8; 4] = [13, 10, 13, 10];
    assert(pattern@ =~= blank_line());
    find(buffer, &pattern)
}

pub open spec fn is_blank(b: u8) -> bool {
    b == 32 || b == 9
}

/// How many spaces and tabs `s` starts with.
pub open spec fn leading_blanks(s: Seq<u8>) -> int {
    if exists|k: int| 0 <= k < s.len() && !is_blank(#[trigger] s[k]) {
        choose|k: int|
            0 <= k < s.len() && !is_blank(#[trigger] s[k]) && forall|j: int| 0 <= j < k ==> is_blank(#[trigger] s[j])
    } else {
        s.len() as int
    }
}

proof fn lemma_leading_blanks(s: Seq<u8>, k: int)
    requires
        0 <= k <= s.len(),
        forall|j: int| 0 <= j < k ==> is_blank(#[trigger] s[j]),
        k == s.len() || !is_blank(s[k]),
    ensures
        leading_blanks(s) == k,
{
    if k < s.len() {
        let c = choose|c: int|
            0 <= c < s.len() && !is_blank(#[trigger] s[c]) && forall|j: int| 0 <= j < c ==> is_blank(#[trigger] s[j]);
        assert(!is_blank(s[c]));
        if c < k {
            assert(is_blank(s[c]));
        } else if c > k {
            assert(is_blank(s[k]));
        }
    }
}

/// `value` without its leading spaces and tabs.
pub fn trim_spaces(value: &[u8]) -> (r: &[u8])
    ensures
        r@ == value@.subrange(leading_blanks(value@), value@.len() as int),
{
    let mut k: usize = 0;
    while k < value.len() && (value[k] == 32 || value[k] == 9)
        invariant
            k <= value@.len(),
            forall|j: int| 0 <= j < k ==> is_blank(#[trigger] value@[j]),
        decreases value@.len() - k,
    {
        k = k + 1;
    }
    proof {
        lemma_leading_blanks(value@, k as int);
    }
    vstd::slice::slice_subrange(value, k, value.len())
}

/// The value of a header line named `name`, without its leading blanks.
pub open spec fn spec_header_value(line: Seq<u8>, name: Seq<u8>) -> Option<Seq<u8>> {
    if name.len() <= line.len() && line.subrange(0, name.len() as int) == name {
        let rest = line.subrange(name.len() as int, line.len() as int);
        Some(rest.subrange(leading_blanks(rest), rest.len() as int))
    } else {
        None
    }
}

/// The value of `line` when it starts with `name`.
pub fn header_value<'a>(line: &'a [u8], name: &[u8]) -> (r: Option<&'a [u8]>)
    ensures
        match spec_header_value(line@, name@) {
            Some(v) => r matches Some(s) && s@ == v,
            None => r is None,
        },
{
    if !bytes_at(line, 0, name) {
        return None;
    }
    let rest = vstd::slice::slice_subrange(line, name.len(), line.len());
    Some(trim_spaces(rest))
}

pub open spec fn is_digit(b: u8) -> bool {
    48 <= b <= 57
}

/// Reading the first `n` bytes of `s` as a decimal `usize`, left to right:
/// a byte that is not a digit, or a value past `usize::MAX`, stops the reading.
pub open spec fn usize_scan(s: Seq<u8>, n: int) -> Result<int, HttpError>
    decreases n,
{
    if n <= 0 {
        Ok(0)
    } else {
        match usize_scan(s, n - 1) {
            Err(e) => Err(e),
            Ok(v) => if !is_digit(s[n - 1]) {
                Err(HttpError::InvalidContentLength)
            } else if v * 10 + (s[n - 1] - 48) > usize::MAX {
                Err(HttpError::ContentLengthOverflow)
            } else {
                Ok(v * 10 + (s[n - 1] - 48))
            },
        }
    }
}

proof fn lemma_usize_scan_bound(s: Seq<u8>, n: int)
    requires
        0 <= n,
    ensures
        usize_scan(s, n) matches Ok(v) ==> 0 <= v <= usize::MAX,
    decreases n,
{
    if n > 0 {
        lemma_usize_scan_bound(s, n - 1);
    }
}

/// Reading a prefix looks only at that prefix.
proof fn lemma_scan_prefix(s: Seq<u8>, t: Seq<u8>, n: int)
    requires
        0 <= n <= s.len(),
        n <= t.len(),
        forall|i: int| 0 <= i < n ==> s[i] == t[i],
    ensures
        usize_scan(s, n) == usize_scan(t, n),
    decreases n,
{
    if n > 0 {
        lemma_scan_prefix(s, t, n - 1);
    }
}

/// What `push_usize` writes, `parse_usize` reads back: the decimal text of a
/// `usize` scans to that value.
pub proof fn lemma_decimal_reads_back(value: nat)
    requires
        value <= usize::MAX,
    ensures
        usize_scan(ascii_bytes(decimal(value)), ascii_bytes(decimal(value)).len() as int) == Ok::<int, HttpError>(
            value as int,
        ),
    decreases value,
{
    let s = ascii_bytes(decimal(value));
    if value < 10 {
        assert(decimal(value) == seq![crate::response::digit_char(value as int)]);
        assert(s.len() == 1);
        assert(s[0] == 48 + value);
        assert(usize_scan(s, 0) == Ok::<int, HttpError>(0));
        assert(is_digit(s[0]));
        assert(usize_scan(s, 1) == Ok::<int, HttpError>(value as int));
    } else {
        let high = value / 10;
        lemma_decimal_reads_back(high);
        let p = ascii_bytes(decimal(high));
        assert(decimal(value) == decimal(high) + seq![crate::response::digit_char((value % 10) as int)]);
        assert(s =~= p.push((48 + value % 10) as u8));
        lemma_scan_prefix(s, p, p.len() as int);
        assert(usize_scan(s, p.len() as int) == Ok::<int, HttpError>(high as int));
        assert(is_digit(s[p.len() as int]));
        assert(high * 10 + value % 10 == value);
        assert(usize_scan(s, s.len() as int) == Ok::<int, HttpError>(value as int));
    }
}

/// Reads a `Content-Length` value; the empty text reads as 0.
pub fn parse_usize(value: &[u8]) -> (r: Result<usize, HttpError>)
    ensures
        match usize_scan(value@, value@.len() as int) {
            Ok(v) => r == Ok::<usize, HttpError>(v as usize),
            Err(e) => r == Err::<usize, HttpError>(e),
        },
{
    let mut output: usize = 0;
    let mut i: usize = 0;
    while i < value.len()
        invariant
            i <= value@.len(),
            usize_scan(value@, i as int) == Ok::<int, HttpError>(output as int),
        decreases value@.len() - i,
    {
        let byte = value[i];
        if byte < 48 || byte > 57 {
            proof {
                lemma_scan_stays_err(value@, i + 1, value@.len() as int);
            }
            return Err(HttpError::InvalidContentLength);
        }
        let digit = (byte - 48) as usize;
        let next = match output.checked_mul(10) {
            Some(m) => m.checked_add(digit),
            None => None,
        };
        match next {
            Some(v) => {
                output = v;
            },
            None => {
                proof {
                    lemma_scan_stays_err(value@, i + 1, value@.len() as int);
                }
                return Err(HttpError::ContentLengthOverflow);
            },
        }
        i = i + 1;
    }
    Ok(output)
}

proof fn lemma_scan_stays_err(s: Seq<u8>, m: int, n: int)
    requires
        1 <= m <= n,
        usize_scan(s, m) is Err,
    ensures
        usize_scan(s, n) == usize_scan(s, m),
    decreases n - m,
{
    if m < n {
        lemma_scan_stays_err(s, m, n - 1);
    }
}

/// The end of the line starting at `start`: the next `\n`, or the end.
pub open spec fn line_end_from(s: Seq<u8>, start: int) -> int
    decreases s.len() - start,
{
    if start >= s.len() {
        s.len() as int
    } else if s[start] == 10 {
        start
    } else {
        line_end_from(s, start + 1)
    }
}

pub proof fn lemma_line_end_bounds(s: Seq<u8>, start: int)
    requires
        0 <= start <= s.len(),
    ensures
        start <= line_end_from(s, start) <= s.len(),
    decreases s.len() - start,
{
    if start < s.len() && s[start] != 10 {
        lemma_line_end_bounds(s, start + 1);
    }
}

/// The line `start..end` without a trailing `\r`.
pub open spec fn line_text(s: Seq<u8>, start: int, end: int) -> Seq<u8> {
    if end > start && s[end - 1] == 13 {
        s.subrange(start, end - 1)
    } else {
        s.subrange(start, end)
    }
}

/// `Content-Length:`.
pub open spec fn content_length_name() -> Seq<u8> {
    seq![67u8, 111, 110, 116, 101, 110, 116, 45, 76, 101, 110, 103, 116, 104, 58]
}

/// `content-length:`.
pub open spec fn content_length_name_lower() -> Seq<u8> {
    seq![99u8, 111, 110, 116, 101, 110, 116, 45, 108, 101, 110, 103, 116, 104, 58]
}

/// The `Content-Length` of the header lines from `start` on: the first line
/// naming it (in either spelling) decides; 0 when none does.
pub open spec fn content_length_scan(s: Seq<u8>, start: int) -> Result<int, HttpError>
    decreases s.len() - start,
{
    if start < 0 || start > s.len() {
        Ok(0)
    } else {
        proof {
            lemma_line_end_bounds(s, start);
        }
        let end = line_end_from(s, start);
        let line = line_text(s, start, end);
        match spec_header_value(line, content_length_name()) {
            Some(v) => usize_scan(v, v.len() as int),
            None => match spec_header_value(line, content_length_name_lower()) {
                Some(v) => usize_scan(v, v.len() as int),
                None => if end >= s.len() {
                    Ok(0)
                } else {
                    content_length_scan(s, end + 1)
                },
            },
        }
    }
}

/// `GET /ready `.
pub open spec fn ready_prefix() -> Seq<u8> {
    seq![71u8, 69, 84, 32, 47, 114, 101, 97, 100, 121, 32]
}

/// `POST /fraud-score `.
pub open spec fn fraud_score_prefix() -> Seq<u8> {
    seq![80u8, 79, 83, 84, 32, 47, 102, 114, 97, 117, 100, 45, 115, 99, 111, 114, 101, 32]
}

pub open spec fn starts_with(s: Seq<u8>, prefix: Seq<u8>) -> bool {
    prefix.len() <= s.len() && s.subrange(0, prefix.len() as int) == prefix
}

/// How a request head reads: its request line up to the first `\r\n`, and
/// the `Content-Length` among the lines after it.
pub open spec fn spec_request_head(header: Seq<u8>) -> Result<RequestHead, HttpError> {
    match first_at(header, line_break()) {
        None => Err(HttpError::InvalidRequestLine),
        Some(line_end) => {
            let line = header.subrange(0, line_end);
            match content_length_scan(header, line_end + 2) {
                Err(e) => Err(e),
                Ok(n) => Ok(
                    RequestHead {
                        is_ready: starts_with(line, ready_prefix()),
                        is_fraud_score: starts_with(line, fraud_score_prefix()),
                        content_length: n as usize,
                    },
                ),
            }
        },
    }
}

fn line_end_at(s: &[u8], start: usize) -> (r: usize)
    requires
        start <= s@.len(),
    ensures
        r == line_end_from(s@, start as int),
        start <= r <= s@.len(),
{
    let mut j = start;
    while j < s.len() && s[j] != 10
        invariant
            start <= j <= s@.len(),
            line_end_from(s@, start as int) == line_end_from(s@, j as int),
        decreases s@.len() - j,
    {
        j = j + 1;
    }
    j
}

/// The `Content-Length` named by the header lines from `start` on.
fn content_length_from(header: &[u8], start: usize, upper: &[u8; 15], lower: &[u8; 15]) -> (r: Result<usize, HttpError>)
    requires
        start <= header@.len(),
        upper@ == content_length_name(),
        lower@ == content_length_name_lower(),
    ensures
        match content_length_scan(header@, start as int) {
            Ok(v) => r == Ok::<usize, HttpError>(v as usize),
            Err(e) => r == Err::<usize, HttpError>(e),
        },
    decreases header@.len() - start,
{
    let end = line_end_at(header, start);
    let line_stop = if end > start && header[end - 1] == 13 { end - 1 } else { end };
    let line = vstd::slice::slice_subrange(header, start, line_stop);
    assert(line@ == line_text(header@, start as int, end as int));
    if let Some(value) = header_value(line, upper) {
        return parse_usize(value);
    }
    if let Some(value) = header_value(line, lower) {
        return parse_usize(value);
    }
    if end >= header.len() {
        return Ok(0);
    }
    content_length_from(header, end + 1, upper, lower)
}

/// A prefix without `\r` starts the bytes before the first `\r\n` exactly when
/// it starts the whole head.
proof fn lemma_prefix_in_line(header: Seq<u8>, line_end: int, prefix: Seq<u8>)
    requires
        at(header, line_end, line_break()),
        forall|i: int| 0 <= i < prefix.len() ==> #[trigger] prefix[i] != 13,
    ensures
        at(header, 0, prefix) == starts_with(header.subrange(0, line_end), prefix),
{
    let line = header.subrange(0, line_end);
    if prefix.len() <= line_end {
        assert(line.subrange(0, prefix.len() as int) =~= header.subrange(0, prefix.len() as int));
    } else if at(header, 0, prefix) {
        assert(header.subrange(0, prefix.len() as int)[line_end] == prefix[line_end]);
        assert(header.subrange(line_end, line_end + 2)[0] == 13);
        assert(header[line_end] == 13);
    }
}

/// Reads the request line and the `Content-Length` of a request head.
pub fn parse_request_head(header: &[u8]) -> (r: Result<RequestHead, HttpError>)
    ensures
        r == spec_request_head(header@),
{
    let crlf: [u8; 2] = [13, 10];
    assert(crlf@ =~= line_break());
    let line_end = match find(header, &crlf) {
        Some(p) => p,
        None => return Err(HttpError::InvalidRequestLine),
    };
    let ready: [u8; 11] = [71, 69, 84, 32, 47, 114, 101, 97, 100, 121, 32];
    let fraud: [u8; 18] = [80, 79, 83, 84, 32, 47, 102, 114, 97, 117, 100, 45, 115, 99, 111, 114, 101, 32];
    assert(ready@ =~= ready_prefix());
    assert(fraud@ =~= fraud_score_prefix());
    let is_ready = bytes_at(header, 0, &ready);
    let is_fraud_score = bytes_at(header, 0, &fraud);
    proof {
        lemma_prefix_in_line(header@, line_end as int, ready_prefix());
        lemma_prefix_in_line(header@, line_end as int, fraud_score_prefix());
    }
    let upper: [u8; 15] = [67, 111, 110, 116, 101, 110, 116, 45, 76, 101, 110, 103, 116, 104, 58];
    let lower: [u8; 15] = [99, 111, 110, 116, 101, 110, 116, 45, 108, 101, 110, 103, 116, 104, 58];
    assert(upper@ =~= content_length_name());
    assert(lower@ =~= content_length_name_lower());
    let total = header.len();
    assert(line_end + 2 <= total);
    let content_length = content_length_from(header, line_end + 2, &upper, &lower)?;
    Ok(RequestHead { is_ready, is_fraud_score, content_length })
}

/// The buffer after a request was taken from it, and what was found.
pub open spec fn spec_parse_request(b: Seq<u8>) -> (Result<ParsedRequest, HttpError>, Seq<u8>) {
    match first_at(b, blank_line()) {
        None => if b.len() >= MAX_HEADER_LEN {
            (Ok(ParsedRequest::BadRequest), Seq::empty())
        } else {
            (Ok(ParsedRequest::Incomplete), b)
        },
        Some(header_end) => match spec_request_head(b.subrange(0, header_end)) {
            Err(e) => (Err(e), b),
            Ok(head) => if head.content_length > MAX_BODY_LEN {
                (Ok(ParsedRequest::BadRequest), Seq::empty())
            } else {
                let total = header_end + 4 + head.content_length;
                if b.len() < total {
                    (Ok(ParsedRequest::Incomplete), b)
                } else if head.is_ready {
                    (Ok(ParsedRequest::Ready), b.subrange(total, b.len() as int))
                } else if head.is_fraud_score {
                    (
                        Ok(
                            ParsedRequest::FraudScore {
                                body_start: (header_end + 4) as usize,
                                body_len: head.content_length,
                                total_len: total as usize,
                            },
                        ),
                        b,
                    )
                } else {
                    (Ok(ParsedRequest::NotFound), b.subrange(total, b.len() as int))
                }
            },
        },
    }
}

/// Some occurrence of `pattern` at or before `p` comes first.
proof fn lemma_earliest_at(s: Seq<u8>, pattern: Seq<u8>, p: int)
    requires
        at(s, p, pattern),
    ensures
        exists|m: int| #[trigger] at(s, m, pattern) && forall|q: int| 0 <= q < m ==> !#[trigger] at(s, q, pattern),
    decreases p,
{
    if exists|q: int| 0 <= q < p && #[trigger] at(s, q, pattern) {
        let q = choose|q: int| 0 <= q < p && #[trigger] at(s, q, pattern);
        lemma_earliest_at(s, pattern, q);
    } else {
        assert(at(s, p, pattern) && forall|q: int| 0 <= q < p ==> !#[trigger] at(s, q, pattern));
    }
}

/// `first_at` is the first occurrence: the pattern is there, and nowhere before.
pub proof fn lemma_first_at_is_first(s: Seq<u8>, pattern: Seq<u8>)
    ensures
        first_at(s, pattern) matches Some(h) ==> at(s, h, pattern) && forall|q: int|
            0 <= q < h ==> !#[trigger] at(s, q, pattern),
        first_at(s, pattern) is None ==> forall|q: int| !#[trigger] at(s, q, pattern),
{
    reveal(first_at);
    if exists|p: int| #[trigger] at(s, p, pattern) {
        let p = choose|p: int| #[trigger] at(s, p, pattern);
        lemma_earliest_at(s, pattern, p);
    }
}

/// Whatever route a complete request takes, the buffer afterwards holds
/// exactly what follows it: the head ends at the first `\r\n\r\n`, the body
/// is the `Content-Length` bytes after that, and a readiness or unknown-route
/// request is taken out whole (head, blank line and body) with everything
/// after it kept in order; a scoring request stays, its body placed right
/// after the blank line and its total length being head, blank line and body.
pub proof fn lemma_request_taken_whole(b: Seq<u8>)
    requires
        b.len() <= usize::MAX,
    ensures
        ({
            let (r, rest) = spec_parse_request(b);
            let answered = r == Ok::<ParsedRequest, HttpError>(ParsedRequest::Ready) || r == Ok::<
                ParsedRequest,
                HttpError,
            >(ParsedRequest::NotFound);
            &&& first_at(b, blank_line()) matches Some(h) ==> at(b, h, blank_line())
                && forall|q: int| 0 <= q < h ==> !#[trigger] at(b, q, blank_line())
            &&& match first_at(b, blank_line()) {
                None => !answered && !(r matches Ok(ParsedRequest::FraudScore { .. })),
                Some(h) => match spec_request_head(b.subrange(0, h)) {
                    Err(_) => !answered && !(r matches Ok(ParsedRequest::FraudScore { .. })),
                    Ok(head) => {
                        &&& answered ==> h + 4 + head.content_length <= b.len() && rest == b.subrange(
                            h + 4 + head.content_length,
                            b.len() as int,
                        ) && b == b.subrange(0, h + 4 + head.content_length) + rest
                        &&& r matches Ok(ParsedRequest::FraudScore { body_start, body_len, total_len })
                            ==> body_start == h + 4 && body_len == head.content_length && total_len
                            == h + 4 + head.content_length && total_len <= b.len() && rest == b
                    },
                },
            }
        }),
{
    lemma_first_at_is_first(b, blank_line());
    let (r, rest) = spec_parse_request(b);
    if let Some(h) = first_at(b, blank_line()) {
        if let Ok(head) = spec_request_head(b.subrange(0, h)) {
            let total = h + 4 + head.content_length;
            if total <= b.len() {
                assert(b =~= b.subrange(0, total) + b.subrange(total, b.len() as int));
            }
        }
    }
}

/// Looks at the front of a connection's buffer. A request for readiness or
/// for an unknown route is taken out of it; a scoring request stays until
/// its body has been handed on; an overlong head or body empties it.
pub fn parse_request(buffer: &mut Vec<u8>) -> (r: Result<ParsedRequest, HttpError>)
    ensures
        r == spec_parse_request(old(buffer)@).0,
        final(buffer)@ == spec_parse_request(old(buffer)@).1,
{
    let header_end = match find_header_end(buffer.as_slice()) {
        Some(p) => p,
        None => {
            if buffer.len() >= MAX_HEADER_LEN {
                buffer.clear();
                return Ok(ParsedRequest::BadRequest);
            }
            return Ok(ParsedRequest::Incomplete);
        },
    };
    let header = vstd::slice::slice_subrange(buffer.as_slice(), 0, header_end);
    let request = parse_request_head(header)?;
    if request.content_length > MAX_BODY_LEN {
        buffer.clear();
        return Ok(ParsedRequest::BadRequest);
    }
    let total: u128 = header_end as u128 + 4 + request.content_length as u128;
    if (buffer.len() as u128) < total {
        return Ok(ParsedRequest::Incomplete);
    }
    let total_len = total as usize;
    if request.is_ready {
        drain_request(buffer, total_len);
        Ok(ParsedRequest::Ready)
    } else if request.is_fraud_score {
        Ok(ParsedRequest::FraudScore { body_start: header_end + 4, body_len: request.content_length, total_len })
    } else {
        drain_request(buffer, total_len);
        Ok(ParsedRequest::NotFound)
    }
}

/// Takes the first `end` bytes out of the buffer.
pub fn drain_request(buffer: &mut Vec<u8>, end: usize)
    requires
        end <= old(buffer)@.len(),
    ensures
        final(buffer)@ == old(buffer)@.subrange(end as int, old(buffer)@.len() as int),
{
    if end == buffer.len() {
        buffer.clear();
        assert(buffer@ =~= old(buffer)@.subrange(end as int, old(buffer)@.len() as int));
    } else {
        let rest = buffer.split_off(end);
        *buffer = rest;
    }
}

/// The bytes of ASCII text.
pub open spec fn ascii_bytes(s: Seq<char>) -> Seq<u8> {
    Seq::new(s.len(), |i: int| s[i] as u8)
}

/// Appends ASCII text.
pub fn push_text(output: &mut Vec<u8>, text: &str)
    requires
        is_ascii(text),
    ensures
        final(output)@ == old(output)@ + ascii_bytes(text@),
{
    proof {
        vstd::string::is_ascii_spec_bytes(text);
    }
    let bytes = text.as_bytes();
    let mut i: usize = 0;
    while i < bytes.len()
        invariant
            bytes@ == ascii_bytes(text@),
            i <= bytes@.len(),
            output@ == old(output)@ + bytes@.subrange(0, i as int),
        decreases bytes@.len() - i,
    {
        output.push(bytes[i]);
        proof {
            assert(bytes@.subrange(0, i + 1) =~= bytes@.subrange(0, i as int).push(bytes@[i as int]));
        }
        i = i + 1;
    }
    assert(bytes@.subrange(0, bytes@.len() as int) =~= bytes@);
}

/// Appends bytes.
pub fn push_bytes(output: &mut Vec<u8>, bytes: &[u8])
    ensures
        final(output)@ == old(output)@ + bytes@,
{
    let mut i: usize = 0;
    while i < bytes.len()
        invariant
            i <= bytes@.len(),
            output@ == old(output)@ + bytes@.subrange(0, i as int),
        decreases bytes@.len() - i,
    {
        output.push(bytes[i]);
        proof {
            assert(bytes@.subrange(0, i + 1) =~= bytes@.subrange(0, i as int).push(bytes@[i as int]));
        }
        i = i + 1;
    }
    assert(bytes@.subrange(0, bytes@.len() as int) =~= bytes@);
}

/// `10` to the power `n`.
pub open spec fn pow10(n: nat) -> nat
    decreases n,
{
    if n == 0 { 1 } else { 10 * pow10((n - 1) as nat) }
}

/// Appends the decimal digits of `value`.
pub fn push_usize(value: usize, output: &mut Vec<u8>)
    ensures
        final(output)@ == old(output)@ + ascii_bytes(decimal(value as nat)),
{
    let mut digits: [u8; 20] = [0; 20];
    let mut index: usize = 20;
    let mut rest = value;
    proof {
        reveal_with_fuel(pow10, 21);
        assert(pow10(20) == 100_000_000_000_000_000_000);
    }
    loop
        invariant_except_break
            index <= 20,
            index == 20 || rest > 0,
            (rest as nat) < pow10(index as nat),
            index == 20 ==> rest == value,
            index < 20 ==> ascii_bytes(decimal(value as nat)) == ascii_bytes(decimal(rest as nat)) + digits@.subrange(
                index as int,
                20,
            ),
        ensures
            index < 20,
            ascii_bytes(decimal(value as nat)) == digits@.subrange(index as int, 20),
        decreases index,
    {
        assert(index > 0);
        let ghost before = digits@.subrange(index as int, 20);
        let ghost old_rest = rest;
        index = index - 1;
        digits[index] = 48 + (rest % 10) as u8;
        rest = rest / 10;
        proof {
            assert(digits@.subrange(index as int, 20) =~= seq![(48 + old_rest % 10) as u8] + before);
            assert(ascii_bytes(seq![crate::response::digit_char((old_rest % 10) as int)]) =~= seq![(48 + old_rest % 10) as u8]);
            if old_rest == value {
                assert(before =~= Seq::<u8>::empty());
            }
            if old_rest >= 10 {
                assert(decimal(old_rest as nat) == decimal((old_rest / 10) as nat) + seq![crate::response::digit_char((old_rest % 10) as int)]);
                assert(ascii_bytes(decimal(old_rest as nat)) =~= ascii_bytes(decimal((old_rest / 10) as nat)) + ascii_bytes(seq![crate::response::digit_char((old_rest % 10) as int)]));
            } else {
                assert(decimal(old_rest as nat) == seq![crate::response::digit_char((old_rest % 10) as int)]);
            }
        }
        if rest == 0 {
            break;
        }
    }
    push_bytes(output, vstd::slice::slice_subrange(digits.as_slice(), index, 20));
}

/// `HTTP/1.1 200 OK` with a JSON body, its length, and keep-alive.
pub open spec fn json_response_bytes(body: Seq<u8>) -> Seq<u8> {
    ascii_bytes("HTTP/1.1 200 OK\r\nContent-Type: application/json\r\nContent-Length: "@) + ascii_bytes(
        decimal(body.len()),
    ) + ascii_bytes("\r\nConnection: keep-alive\r\n\r\n"@) + body
}

/// Replaces `output` with the HTTP answer carrying `body`.
pub fn write_json_response_bytes(body: &[u8], output: &mut Vec<u8>)
    ensures
        final(output)@ == json_response_bytes(body@),
{
    proof {
        reveal_strlit("HTTP/1.1 200 OK\r\nContent-Type: application/json\r\nContent-Length: ");
        reveal_strlit("\r\nConnection: keep-alive\r\n\r\n");
    }
    output.clear();
    push_text(output, "HTTP/1.1 200 OK\r\nContent-Type: application/json\r\nContent-Length: ");
    push_usize(body.len(), output);
    push_text(output, "\r\nConnection: keep-alive\r\n\r\n");
    push_bytes(output, body);
    assert(output@ =~= json_response_bytes(body@));
}

/// A worker's answer longer than this is refused.
pub const MAX_RESPONSE_BODY_LEN: usize = 64;

/// Why a worker's answer header was refused.
#[derive(Debug, Clone, Copy, PartialEq, Eq, Structural)]
pub enum LaneHeaderError {
    /// The status byte names no status.
    UnknownStatus,
    /// The answer is longer than `MAX_RESPONSE_BODY_LEN`.
    TooLong,
}

/// The status and length of a worker's answer header.
pub fn decode_lane_header(header: &[u8; 5]) -> (r: Result<(UmbralStatus, usize), LaneHeaderError>)
    ensures
        spec_status_from_byte(header@[0]) is None ==> r == Err::<(UmbralStatus, usize), LaneHeaderError>(
            LaneHeaderError::UnknownStatus,
        ),
        spec_status_from_byte(header@[0]) matches Some(status) ==> if u32_be_at(header@, 1) > MAX_RESPONSE_BODY_LEN {
            r == Err::<(UmbralStatus, usize), LaneHeaderError>(LaneHeaderError::TooLong)
        } else {
            r == Ok::<(UmbralStatus, usize), LaneHeaderError>((status, u32_be_at(header@, 1) as usize))
        },
{
    let status = match UmbralStatus::from_byte(header[0]) {
        Some(status) => status,
        None => return Err(LaneHeaderError::UnknownStatus),
    };
    let len = frame_len(header);
    if len as u64 > MAX_RESPONSE_BODY_LEN as u64 {
        return Err(LaneHeaderError::TooLong);
    }
    Ok((status, len as usize))
}

/// Where a lane stands in reading a worker's answer: `filled` bytes of the
/// header, or of a body of `len` bytes.
#[derive(Debug, Clone, Copy, PartialEq, Eq, Structural)]
pub enum LaneRead {
    Header { filled: usize },
    Body { status: UmbralStatus, len: usize, filled: usize },
}

/// What one read from a worker gave.
#[derive(Debug, Clone, Copy, PartialEq, Eq, Structural)]
pub enum ReadOutcome {
    /// This many bytes, at least one.
    Bytes(usize),
    /// The worker closed the connection.
    Closed,
    /// Nothing to read yet.
    WouldBlock,
    /// The read failed.
    Failed,
}

/// What the balancer does after a read from a worker.
#[derive(Debug, Clone, Copy, PartialEq, Eq, Structural)]
pub enum LaneStep {
    /// Read again, from this state.
    ReadMore(LaneRead),
    /// Wait until the worker's socket is readable, in this state.
    Wait(LaneRead),
    /// The answer is complete: its status and body length.
    Complete { status: UmbralStatus, len: usize },
    /// Drop the worker's connection and open a new one.
    Reconnect,
    /// The answer's status byte names no status.
    Invalid,
}

/// The read state is one a lane can be in.
pub open spec fn lane_read_ok(state: LaneRead) -> bool {
    match state {
        LaneRead::Header { filled } => filled < 5,
        LaneRead::Body { len, filled, .. } => filled < len <= MAX_RESPONSE_BODY_LEN,
    }
}

/// Room left in the buffer the next read of `state` fills.
pub open spec fn lane_read_room(state: LaneRead) -> int {
    match state {
        LaneRead::Header { filled } => 5 - filled,
        LaneRead::Body { len, filled, .. } => len - filled,
    }
}

/// The next step of reading a worker's answer, `header` holding the header
/// bytes read so far.
pub open spec fn spec_lane_read_step(state: LaneRead, header: Seq<u8>, outcome: ReadOutcome) -> LaneStep {
    match outcome {
        ReadOutcome::Closed | ReadOutcome::Failed => LaneStep::Reconnect,
        ReadOutcome::WouldBlock => LaneStep::Wait(state),
        ReadOutcome::Bytes(n) => match state {
            LaneRead::Header { filled } => if filled + n < 5 {
                LaneStep::ReadMore(LaneRead::Header { filled: (filled + n) as usize })
            } else {
                match spec_status_from_byte(header[0]) {
                    None => LaneStep::Invalid,
                    Some(status) => if u32_be_at(header, 1) > MAX_RESPONSE_BODY_LEN {
                        LaneStep::Reconnect
                    } else if u32_be_at(header, 1) == 0 {
                        LaneStep::Complete { status, len: 0 }
                    } else {
                        LaneStep::ReadMore(LaneRead::Body { status, len: u32_be_at(header, 1) as usize, filled: 0 })
                    },
                }
            },
            LaneRead::Body { status, len, filled } => if filled + n == len {
                LaneStep::Complete { status, len }
            } else {
                LaneStep::ReadMore(LaneRead::Body { status, len, filled: (filled + n) as usize })
            },
        },
    }
}

/// One step of reading a worker's answer: a header that names no status
/// is invalid, one announcing more than `MAX_RESPONSE_BODY_LEN` bytes or a
/// closed or failed connection calls for a new connection, and the answer
/// is complete once its body is.
pub fn lane_read_step(state: LaneRead, header: &[u8; 5], outcome: ReadOutcome) -> (r: LaneStep)
    requires
        lane_read_ok(state),
        outcome matches ReadOutcome::Bytes(n) ==> 1 <= n <= lane_read_room(state),
    ensures
        r == spec_lane_read_step(state, header@, outcome),
        r matches LaneStep::ReadMore(next) ==> lane_read_ok(next),
        r matches LaneStep::Wait(next) ==> lane_read_ok(next),
{
    match outcome {
        ReadOutcome::Closed | ReadOutcome::Failed => LaneStep::Reconnect,
        ReadOutcome::WouldBlock => LaneStep::Wait(state),
        ReadOutcome::Bytes(n) => match state {
            LaneRead::Header { filled } => {
                if filled + n < 5 {
                    return LaneStep::ReadMore(LaneRead::Header { filled: filled + n });
                }
                match decode_lane_header(header) {
                    Err(LaneHeaderError::UnknownStatus) => LaneStep::Invalid,
                    Err(LaneHeaderError::TooLong) => LaneStep::Reconnect,
                    Ok((status, len)) => {
                        if len == 0 {
                            LaneStep::Complete { status, len: 0 }
                        } else {
                            LaneStep::ReadMore(LaneRead::Body { status, len, filled: 0 })
                        }
                    },
                }
            },
            LaneRead::Body { status, len, filled } => {
                if filled + n == len {
                    LaneStep::Complete { status, len }
                } else {
                    LaneStep::ReadMore(LaneRead::Body { status, len, filled: filled + n })
                }
            },
        },
    }
}

/// The frame that hands a scoring request's body to a worker, when the
/// buffer still holds the whole request and the body lies inside it.
pub fn lane_job_frame(
    read_buffer: &[u8],
    method: u8,
    body_start: usize,
    body_len: usize,
    total_len: usize,
) -> (r: Option<Vec<u8>>)
    ensures
        (read_buffer@.len() < total_len || body_start + body_len > total_len) ==> r is None,
        !(read_buffer@.len() < total_len || body_start + body_len > total_len) ==> (r matches Some(frame)
            && frame@ == spec_frame_header(method, body_len as u32) + read_buffer@.subrange(
            body_start as int,
            body_start + body_len,
        )),
{
    if read_buffer.len() < total_len || body_len > total_len || body_start > total_len - body_len {
        return None;
    }
    let body = vstd::slice::slice_subrange(read_buffer, body_start, body_start + body_len);
    Some(request_frame(method, body))
}

/// The answer to a readiness check.
pub open spec fn ready_answer() -> Seq<char> {
    "HTTP/1.1 200 OK\r\nContent-Length: 16\r\nConnection: keep-alive\r\n\r\nI was born ready"@
}

/// The answer to a request for an unknown path.
pub open spec fn not_found_answer() -> Seq<char> {
    "HTTP/1.1 404 Not Found\r\nContent-Length: 0\r\nConnection: keep-alive\r\n\r\n"@
}

/// The answer to a malformed request.
pub open spec fn bad_request_answer() -> Seq<char> {
    "HTTP/1.1 400 Bad Request\r\nContent-Length: 0\r\nConnection: close\r\n\r\n"@
}

/// The answer when no worker could score a request.
pub open spec fn unavailable_answer() -> Seq<char> {
    "HTTP/1.1 503 Service Unavailable\r\nContent-Length: 0\r\nConnection: close\r\n\r\n"@
}

/// What the balancer does with the front of a client's buffer.
#[derive(Debug, Clone, Copy)]
pub enum ClientAction {
    /// Answer with this text, then close the connection or keep it open.
    Answer { text: &'static str, close: bool },
    /// Wait for more bytes.
    Wait,
    /// Hand the request's body to a worker.
    Dispatch { body_start: usize, body_len: usize, total_len: usize },
}

/// The balancer's answer to a parsed request: readiness checks, unknown
/// paths and malformed requests are answered at once (a malformed one
/// closing the connection), a partial request waits, and a scoring request
/// goes to a worker.
pub fn client_action(parsed: ParsedRequest) -> (r: ClientAction)
    ensures
        match parsed {
            ParsedRequest::Ready => r matches ClientAction::Answer { text, close } && text@ == ready_answer()
                && !close,
            ParsedRequest::NotFound => r matches ClientAction::Answer { text, close } && text@
                == not_found_answer() && !close,
            ParsedRequest::BadRequest => r matches ClientAction::Answer { text, close } && text@
                == bad_request_answer() && close,
            ParsedRequest::Incomplete => r is Wait,
            ParsedRequest::FraudScore { body_start, body_len, total_len } => r matches ClientAction::Dispatch {
                body_start: s,
                body_len: l,
                total_len: t,
            } && s == body_start && l == body_len && t == total_len,
        },
{
    match parsed {
        ParsedRequest::Ready => ClientAction::Answer {
            text: "HTTP/1.1 200 OK\r\nContent-Length: 16\r\nConnection: keep-alive\r\n\r\nI was born ready",
            close: false,
        },
        ParsedRequest::NotFound => ClientAction::Answer {
            text: "HTTP/1.1 404 Not Found\r\nContent-Length: 0\r\nConnection: keep-alive\r\n\r\n",
            close: false,
        },
        ParsedRequest::BadRequest => ClientAction::Answer {
            text: "HTTP/1.1 400 Bad Request\r\nContent-Length: 0\r\nConnection: close\r\n\r\n",
            close: true,
        },
        ParsedRequest::Incomplete => ClientAction::Wait,
        ParsedRequest::FraudScore { body_start, body_len, total_len } => ClientAction::Dispatch {
            body_start,
            body_len,
            total_len,
        },
    }
}

/// Whether the balancer reads the next request of a client: not while an
/// earlier one waits for its worker or an answer is still being written.
pub fn may_read_request(pending: bool, output_empty: bool) -> (r: bool)
    ensures
        r == (!pending && output_empty),
{
    !pending && output_empty
}

/// What the balancer does with a parsed request, given the idle lane it would
/// use (the last of the idle list), if any.
#[derive(Debug, Clone, Copy)]
pub enum DispatchAction {
    /// Answer with this text, then close the connection or keep it open.
    Answer { text: &'static str, close: bool },
    /// Wait for more bytes.
    Wait,
    /// Hand the body to the worker behind `lane`, taken from the idle list.
    StartOnLane { lane: usize, body_start: usize, body_len: usize, total_len: usize },
    /// No lane is idle: queue the request.
    Enqueue { body_start: usize, body_len: usize, total_len: usize },
}

/// The balancer's dispatch of a parsed request: the answers of
/// `client_action`, a scoring request going to the idle lane when there is
/// one and to the queue otherwise.
pub fn dispatch_step(idle: Option<usize>, parsed: ParsedRequest) -> (r: DispatchAction)
    ensures
        match parsed {
            ParsedRequest::Ready => r matches DispatchAction::Answer { text, close } && text@ == ready_answer()
                && !close,
            ParsedRequest::NotFound => r matches DispatchAction::Answer { text, close } && text@
                == not_found_answer() && !close,
            ParsedRequest::BadRequest => r matches DispatchAction::Answer { text, close } && text@
                == bad_request_answer() && close,
            ParsedRequest::Incomplete => r is Wait,
            ParsedRequest::FraudScore { body_start, body_len, total_len } => match idle {
                Some(lane) => r matches DispatchAction::StartOnLane { lane: a, body_start: s, body_len: l, total_len: t }
                    && a == lane && s == body_start && l == body_len && t == total_len,
                None => r matches DispatchAction::Enqueue { body_start: s, body_len: l, total_len: t } && s
                    == body_start && l == body_len && t == total_len,
            },
        },
{
    match client_action(parsed) {
        ClientAction::Answer { text, close } => DispatchAction::Answer { text, close },
        ClientAction::Wait => DispatchAction::Wait,
        ClientAction::Dispatch { body_start, body_len, total_len } => match idle {
            Some(lane) => DispatchAction::StartOnLane { lane, body_start, body_len, total_len },
            None => DispatchAction::Enqueue { body_start, body_len, total_len },
        },
    }
}

/// The answer when no worker could score a request.
pub fn unavailable_text() -> (r: &'static str)
    ensures
        r@ == unavailable_answer(),
{
    "HTTP/1.1 503 Service Unavailable\r\nContent-Length: 0\r\nConnection: close\r\n\r\n"
}

/// Replaces `output` with the answer to a client whose request a worker
/// handled with `status`, and says whether to close the connection after
/// it: the worker's JSON on success, else `503` and close.
pub fn worker_answer(status: UmbralStatus, payload: &[u8], output: &mut Vec<u8>) -> (close: bool)
    ensures
        status == UmbralStatus::Success ==> final(output)@ == json_response_bytes(payload@) && !close,
        status != UmbralStatus::Success ==> final(output)@ == ascii_bytes(unavailable_answer()) && close,
{
    match status {
        UmbralStatus::Success => {
            write_json_response_bytes(payload, output);
            false
        },
        _ => {
            proof {
                reveal_strlit("HTTP/1.1 503 Service Unavailable\r\nContent-Length: 0\r\nConnection: close\r\n\r\n");
            }
            output.clear();
            push_text(output, unavailable_text());
            assert(output@ =~= ascii_bytes(unavailable_answer()));
            true
        },
    }
}

/// Replaces `output` with the answer to a client whose worker connection was
/// lost or sent an answer too long to read (`LaneStep::Reconnect`), and says
/// to close the connection after it: always `503`.
pub fn reconnect_answer(output: &mut Vec<u8>) -> (close: bool)
    ensures
        final(output)@ == ascii_bytes(unavailable_answer()),
        close,
{
    proof {
        reveal_strlit("HTTP/1.1 503 Service Unavailable\r\nContent-Length: 0\r\nConnection: close\r\n\r\n");
    }
    output.clear();
    push_text(output, unavailable_text());
    assert(output@ =~= ascii_bytes(unavailable_answer()));
    true
}

/// A worker's answer header, read whole by the balancer: an answer within
/// `MAX_RESPONSE_BODY_LEN` bytes is read with its status (complete at once
/// when empty, else once its body has arrived); a longer one drops the
/// connection.
pub proof fn lemma_worker_answer_read(status: UmbralStatus, len: u32)
    ensures
        ({
            let header = spec_frame_header(crate::umbral::spec_status_byte(status), len);
            let first = spec_lane_read_step(LaneRead::Header { filled: 0 }, header, ReadOutcome::Bytes(5));
            &&& len > MAX_RESPONSE_BODY_LEN ==> first == LaneStep::Reconnect
            &&& len == 0 ==> first == LaneStep::Complete { status, len: 0 }
            &&& 0 < len <= MAX_RESPONSE_BODY_LEN ==> first == LaneStep::ReadMore(
                LaneRead::Body { status, len: len as usize, filled: 0 },
            )
            &&& 0 < len <= MAX_RESPONSE_BODY_LEN ==> spec_lane_read_step(
                LaneRead::Body { status, len: len as usize, filled: 0 },
                header,
                ReadOutcome::Bytes(len as usize),
            ) == LaneStep::Complete { status, len: len as usize }
        }),
{
    crate::umbral::lemma_frame_header_roundtrip(crate::umbral::spec_status_byte(status), len);
    crate::umbral::lemma_status_roundtrip(status);
}

} // verus!
