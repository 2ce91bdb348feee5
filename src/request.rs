//! Parsing a received buffer into a request.
use vstd::prelude::*;
use vstd::utf8::{valid_utf8, decode_utf8};
use vstd::slice::slice_to_vec;
use vstd::string::{StrSliceExecFns, StringExecFns};
use crate::http::{RequestMethod, method_of};
use crate::headers::{HeaderMap, HeaderSeq, header_insert, keys_unique};

verus! {

/// Why a request could not be parsed.
#[derive(Debug, Clone, Copy, PartialEq, Eq, Structural)]
pub enum ParseError {
    MalformedStatusLine,
    InvalidMethod,
    MalformedHeader,
    InvalidUtf8,
}

/// The first position in `[from, end)` that holds `x`, or `end` if none does.
pub open spec fn find_in(b: Seq<u8>, from: int, end: int, x: u8) -> int
    decreases end - from,
{
    if from >= end {
        end
    } else if b[from] == x {
        from
    } else {
        find_in(b, from + 1, end, x)
    }
}

pub proof fn lemma_find_in_bounds(b: Seq<u8>, from: int, end: int, x: u8)
    requires
        from <= end,
    ensures
        from <= find_in(b, from, end, x) <= end,
    decreases end - from,
{
    if from < end && b[from] != x {
        lemma_find_in_bounds(b, from + 1, end, x);
    }
}

/// Whitespace as Unicode defines it (the `White_Space` property).
pub open spec fn is_white(c: char) -> bool {
    let u = c as u32;
    ||| 0x09 <= u <= 0x0D
    ||| u == 0x20
    ||| u == 0x85
    ||| u == 0xA0
    ||| u == 0x1680
    ||| 0x2000 <= u <= 0x200A
    ||| u == 0x2028
    ||| u == 0x2029
    ||| u == 0x202F
    ||| u == 0x205F
    ||| u == 0x3000
}

/// The first position at or after `from` that does not hold whitespace, or the end.
pub open spec fn first_non_white(s: Seq<char>, from: int) -> int
    decreases s.len() - from,
{
    if from < 0 || from >= s.len() {
        s.len() as int
    } else if is_white(s[from]) {
        first_non_white(s, from + 1)
    } else {
        from
    }
}

/// The text without its leading whitespace.
pub open spec fn trim_start(s: Seq<char>) -> Seq<char> {
    s.subrange(first_non_white(s, 0), s.len() as int)
}

/// The message: everything before the first zero byte.
pub open spec fn message_of(raw: Seq<u8>) -> Seq<u8> {
    raw.subrange(0, find_in(raw, 0, raw.len() as int, 0))
}

/// The end of a line's content: one trailing carriage return is left out.
pub open spec fn content_end(m: Seq<u8>, start: int, e: int) -> int {
    if e > start && m[e - 1] == 13 {
        e - 1
    } else {
        e
    }
}

/// Where the line after the one that ends at `e` starts.
pub open spec fn next_line(m: Seq<u8>, e: int) -> int {
    if e < m.len() {
        e + 1
    } else {
        m.len() as int
    }
}

/// The headers and body that follow position `pos`, with `acc` the headers
/// read so far.
pub open spec fn parse_headers(m: Seq<u8>, pos: int, acc: HeaderSeq) -> Result<
    (HeaderSeq, Option<Seq<u8>>),
    ParseError,
>
    decreases m.len() - pos,
    via parse_headers_decreases
{
    if pos < 0 || pos >= m.len() {
        Ok((acc, None))
    } else {
        let e = find_in(m, pos, m.len() as int, 10);
        let le = content_end(m, pos, e);
        if le == pos {
            if e + 1 < m.len() {
                Ok((acc, Some(m.subrange(e + 1, m.len() as int))))
            } else {
                Ok((acc, None))
            }
        } else {
            let c = find_in(m, pos, le, 58);
            let key = m.subrange(pos, c);
            if !valid_utf8(key) {
                Err(ParseError::InvalidUtf8)
            } else if c == le {
                Err(ParseError::MalformedHeader)
            } else {
                let value = m.subrange(c + 1, le);
                if !valid_utf8(value) {
                    Err(ParseError::InvalidUtf8)
                } else {
                    parse_headers(
                        m,
                        next_line(m, e),
                        header_insert(acc, decode_utf8(key), trim_start(decode_utf8(value))),
                    )
                }
            }
        }
    }
}

#[via_fn]
proof fn parse_headers_decreases(m: Seq<u8>, pos: int, acc: HeaderSeq) {
    if 0 <= pos < m.len() {
        lemma_find_in_bounds(m, pos, m.len() as int, 10);
    }
}

/// A parsed request: method, path, version, headers and body.
pub type RequestModel = (RequestMethod, Seq<char>, Seq<char>, HeaderSeq, Option<Seq<u8>>);

/// What parsing a received buffer gives.
pub open spec fn parse_request(raw: Seq<u8>) -> Result<RequestModel, ParseError> {
    let m = message_of(raw);
    let e = find_in(m, 0, m.len() as int, 10);
    let le = content_end(m, 0, e);
    let s1 = find_in(m, 0, le, 32);
    let s2 = find_in(m, s1 + 1, le, 32);
    let s3 = find_in(m, s2 + 1, le, 32);
    let mt = m.subrange(0, s1);
    let pt = m.subrange(s1 + 1, s2);
    let vt = m.subrange(s2 + 1, s3);
    if s1 == le || s2 == le {
        Err(ParseError::MalformedStatusLine)
    } else if !valid_utf8(mt) {
        Err(ParseError::InvalidUtf8)
    } else if method_of(decode_utf8(mt)) is None {
        Err(ParseError::InvalidMethod)
    } else if !valid_utf8(pt) || !valid_utf8(vt) {
        Err(ParseError::InvalidUtf8)
    } else {
        match parse_headers(m, next_line(m, e), Seq::empty()) {
            Err(err) => Err(err),
            Ok((hs, body)) => Ok(
                (method_of(decode_utf8(mt))->0, decode_utf8(pt), decode_utf8(vt), hs, body),
            ),
        }
    }
}
/// Relies on std::str::from_utf8: it succeeds exactly on valid UTF-8, and the
/// text then holds the characters that the bytes encode.
#[verifier::external_body]
fn decode_text(b: &[u8]) -> (r: Option<String>)
    ensures
        r is Some <==> valid_utf8(b@),
        r is Some ==> r->0@ == decode_utf8(b@),
{
    match std::str::from_utf8(b) {
        Ok(s) => Some(s.to_string()),
        Err(_) => None,
    }
}

/// The text of `b[from..to]`, if those bytes are valid UTF-8.
fn text_at(b: &[u8], from: usize, to: usize) -> (r: Option<String>)
    requires
        from <= to <= b@.len(),
    ensures
        r is Some <==> valid_utf8(b@.subrange(from as int, to as int)),
        r is Some ==> r->0@ == decode_utf8(b@.subrange(from as int, to as int)),
{
    decode_text(&b[from..to])
}

fn find_byte(b: &[u8], from: usize, end: usize, x: u8) -> (r: usize)
    requires
        from <= end <= b@.len(),
    ensures
        r == find_in(b@, from as int, end as int, x),
        from <= r <= end,
{
    let mut i = from;
    while i < end && b[i] != x
        invariant
            from <= i <= end,
            end <= b@.len(),
            find_in(b@, from as int, end as int, x) == find_in(b@, i as int, end as int, x),
        decreases end - i,
    {
        i = i + 1;
    }
    i
}

fn is_white_char(c: char) -> (r: bool)
    ensures
        r == is_white(c),
{
    let u = c as u32;
    (0x09 <= u && u <= 0x0D) || u == 0x20 || u == 0x85 || u == 0xA0 || u == 0x1680 || (0x2000 <= u
        && u <= 0x200A) || u == 0x2028 || u == 0x2029 || u == 0x202F || u == 0x205F || u == 0x3000
}

/// The text without its leading whitespace.
pub fn trim_start_text(s: &str) -> (r: String)
    ensures
        r@ == trim_start(s@),
{
    let n = s.unicode_len();
    let mut i: usize = 0;
    while i < n && is_white_char(s.get_char(i))
        invariant
            n == s@.len(),
            i <= n,
            first_non_white(s@, 0) == first_non_white(s@, i as int),
        decreases n - i,
    {
        i = i + 1;
    }
    String::from_str(s.substring_char(i, n))
}

fn content_end_of(m: &[u8], start: usize, e: usize) -> (r: usize)
    requires
        start <= e <= m@.len(),
    ensures
        r == content_end(m@, start as int, e as int),
        start <= r <= e,
{
    if e > start && m[e - 1] == 13 {
        e - 1
    } else {
        e
    }
}


/// A parsed HTTP request.
#[derive(Debug)]
pub struct Request {
    pub method: RequestMethod,
    pub path: String,
    pub version: String,
    pub headers: HeaderMap,
    pub body: Option<Vec<u8>>,
}

pub open spec fn bytes_view(o: Option<Vec<u8>>) -> Option<Seq<u8>> {
    match o {
        Some(v) => Some(v@),
        None => None,
    }
}

impl View for Request {
    type V = RequestModel;

    open spec fn view(&self) -> RequestModel {
        (self.method, self.path@, self.version@, self.headers@, bytes_view(self.body))
    }
}

impl Request {
    /// Parses a received buffer; anything from the first zero byte on is padding.
    pub fn new(raw: &[u8]) -> (r: Result<Request, ParseError>)
        ensures
            match parse_request(raw@) {
                Ok(model) => r is Ok && r->Ok_0@ == model && r->Ok_0.headers.wf(),
                Err(err) => r == Err::<Request, ParseError>(err),
            },
    {
        let z = find_byte(raw, 0, raw.len(), 0);
        let m = &raw[0..z];
        assert(m@ == message_of(raw@));
        let n = m.len();
        let e = find_byte(m, 0, n, 10);
        let le = content_end_of(m, 0, e);
        let s1 = find_byte(m, 0, le, 32);
        if s1 == le {
            return Err(ParseError::MalformedStatusLine);
        }
        let s2 = find_byte(m, s1 + 1, le, 32);
        if s2 == le {
            return Err(ParseError::MalformedStatusLine);
        }
        let s3 = find_byte(m, s2 + 1, le, 32);
        let method_text = match text_at(m, 0, s1) {
            Some(t) => t,
            None => return Err(ParseError::InvalidUtf8),
        };
        let method = match RequestMethod::parse(method_text.as_str()) {
            Ok(mt) => mt,
            Err(_) => return Err(ParseError::InvalidMethod),
        };
        let path = match text_at(m, s1 + 1, s2) {
            Some(t) => t,
            None => return Err(ParseError::InvalidUtf8),
        };
        let version = match text_at(m, s2 + 1, s3) {
            Some(t) => t,
            None => return Err(ParseError::InvalidUtf8),
        };

        let pos0: usize = if e < n { e + 1 } else { n };
        let ghost start = parse_headers(m@, pos0 as int, Seq::empty());
        let mut headers = HeaderMap::new();
        let mut pos = pos0;
        let mut body: Option<Vec<u8>> = None;
        loop
            invariant_except_break
                body is None,
                parse_headers(m@, pos as int, headers@) == start,
            invariant
                n == m@.len(),
                pos <= n,
                headers.wf(),
                start is Err ==> parse_request(raw@) == Err::<RequestModel, ParseError>(start->Err_0),
                start is Ok ==> parse_request(raw@) == Ok::<RequestModel, ParseError>(
                    (method, path@, version@, start->Ok_0.0, start->Ok_0.1),
                ),
            ensures
                start == Ok::<(HeaderSeq, Option<Seq<u8>>), ParseError>((headers@, bytes_view(body))),
            decreases n - pos,
        {
            if pos >= n {
                break;
            }
            let e = find_byte(m, pos, n, 10);
            let le = content_end_of(m, pos, e);
            if le == pos {
                if e < n && e + 1 < n {
                    body = Some(slice_to_vec(&m[e + 1..n]));
                }
                break;
            }
            let c = find_byte(m, pos, le, 58);
            let key = match text_at(m, pos, c) {
                Some(t) => t,
                None => {
                    assert(start == Err::<(HeaderSeq, Option<Seq<u8>>), ParseError>(ParseError::InvalidUtf8));
                    return Err(ParseError::InvalidUtf8);
                },
            };
            if c == le {
                assert(start == Err::<(HeaderSeq, Option<Seq<u8>>), ParseError>(ParseError::MalformedHeader));
                return Err(ParseError::MalformedHeader);
            }
            let value = match text_at(m, c + 1, le) {
                Some(t) => trim_start_text(t.as_str()),
                None => {
                    assert(start == Err::<(HeaderSeq, Option<Seq<u8>>), ParseError>(ParseError::InvalidUtf8));
                    return Err(ParseError::InvalidUtf8);
                },
            };
            headers.insert(key, value);
            pos = if e < n { e + 1 } else { n };
        }
        assert(start == Ok::<(HeaderSeq, Option<Seq<u8>>), ParseError>((headers@, bytes_view(body))));
        Ok(Request { method, path, version, headers, body })
    }
}

} // verus!
