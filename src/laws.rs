//! Properties that relate the parser, the method table and the serializer.
use vstd::prelude::*;
use crate::http::{RequestMethod, method_of, method_token};
use vstd::utf8::{
    encode_utf8, valid_utf8, decode_utf8, encode_utf8_valid_utf8, encode_utf8_decode_utf8,
    encode_scalar,
};
use crate::request::{
    find_in, message_of, parse_request, parse_headers, content_end, is_white,
    first_non_white, trim_start,
};
use crate::headers::{
    HeaderSeq, keys_unique, has_key, header_insert, header_lookup, insert_all, later_header_wins,
};
use crate::request::next_line;
use crate::response::{header_lines, response_head, response_bytes};
use crate::wire::{
    free_of, lemma_encode_concat, lemma_encode_free_of, lemma_scalar_bytes,
};

verus! {

/// The token of every method parses back to that method.
pub proof fn method_token_round_trip(m: RequestMethod)
    ensures
        method_of(method_token(m)) == Some(m),
{
    let t = method_token(m);
    match m {
        RequestMethod::GET => {},
        RequestMethod::POST => {
            assert(t != method_token(RequestMethod::GET));
        },
        RequestMethod::PUT => {
            assert(t[1] != method_token(RequestMethod::GET)[1]);
            assert(t != method_token(RequestMethod::GET));
            assert(t != method_token(RequestMethod::POST));
        },
        RequestMethod::DELETE => {
            assert(t[0] != method_token(RequestMethod::GET)[0]);
            assert(t != method_token(RequestMethod::GET));
            assert(t != method_token(RequestMethod::POST));
            assert(t != method_token(RequestMethod::PUT));
        },
        RequestMethod::HEAD => {
            assert(t[0] != method_token(RequestMethod::GET)[0]);
            assert(t[0] != method_token(RequestMethod::POST)[0]);
            assert(t != method_token(RequestMethod::GET));
            assert(t != method_token(RequestMethod::POST));
            assert(t != method_token(RequestMethod::PUT));
            assert(t != method_token(RequestMethod::DELETE));
        },
        RequestMethod::CONNECT => {
            assert(t[0] != method_token(RequestMethod::GET)[0]);
            assert(t[0] != method_token(RequestMethod::POST)[0]);
            assert(t != method_token(RequestMethod::GET));
            assert(t != method_token(RequestMethod::POST));
            assert(t != method_token(RequestMethod::PUT));
            assert(t != method_token(RequestMethod::DELETE));
            assert(t != method_token(RequestMethod::HEAD));
        },
        RequestMethod::OPTIONS => {
            assert(t[0] != method_token(RequestMethod::GET)[0]);
            assert(t[0] != method_token(RequestMethod::POST)[0]);
            assert(t[0] != method_token(RequestMethod::CONNECT)[0]);
            assert(t != method_token(RequestMethod::GET));
            assert(t != method_token(RequestMethod::POST));
            assert(t != method_token(RequestMethod::PUT));
            assert(t != method_token(RequestMethod::DELETE));
            assert(t != method_token(RequestMethod::HEAD));
            assert(t != method_token(RequestMethod::CONNECT));
        },
        RequestMethod::TRACE => {
            assert(t[0] != method_token(RequestMethod::GET)[0]);
            assert(t[0] != method_token(RequestMethod::POST)[0]);
            assert(t != method_token(RequestMethod::GET));
            assert(t != method_token(RequestMethod::POST));
            assert(t != method_token(RequestMethod::PUT));
            assert(t != method_token(RequestMethod::DELETE));
            assert(t != method_token(RequestMethod::HEAD));
            assert(t != method_token(RequestMethod::CONNECT));
            assert(t != method_token(RequestMethod::OPTIONS));
        },
        RequestMethod::PATCH => {
            assert(t[1] != method_token(RequestMethod::POST)[1]);
            assert(t[0] != method_token(RequestMethod::TRACE)[0]);
            assert(t != method_token(RequestMethod::GET));
            assert(t != method_token(RequestMethod::POST));
            assert(t != method_token(RequestMethod::PUT));
            assert(t != method_token(RequestMethod::DELETE));
            assert(t != method_token(RequestMethod::HEAD));
            assert(t != method_token(RequestMethod::CONNECT));
            assert(t != method_token(RequestMethod::OPTIONS));
            assert(t != method_token(RequestMethod::TRACE));
        },
    }
}

/// A token that is no method's token names no method.
pub proof fn non_method_token_refused(s: Seq<char>)
    requires
        forall|m: RequestMethod| method_token(m) != s,
    ensures
        method_of(s) is None,
{
    assert(method_token(RequestMethod::GET) != s);
    assert(method_token(RequestMethod::POST) != s);
    assert(method_token(RequestMethod::PUT) != s);
    assert(method_token(RequestMethod::DELETE) != s);
    assert(method_token(RequestMethod::HEAD) != s);
    assert(method_token(RequestMethod::CONNECT) != s);
    assert(method_token(RequestMethod::OPTIONS) != s);
    assert(method_token(RequestMethod::TRACE) != s);
    assert(method_token(RequestMethod::PATCH) != s);
}

proof fn lemma_find_zero_padded(b: Seq<u8>, z: Seq<u8>, from: int)
    requires
        0 <= from <= b.len(),
        forall|i: int| 0 <= i < z.len() ==> z[i] == 0,
    ensures
        find_in(b + z, from, (b + z).len() as int, 0) == find_in(b, from, b.len() as int, 0),
    decreases b.len() - from,
{
    let bz = b + z;
    if from < b.len() {
        assert(bz[from] == b[from]);
        lemma_find_zero_padded(b, z, from + 1);
    } else if z.len() > 0 {
        assert(bz[from] == z[0]);
    }
}

/// Zero bytes appended to a request do not change what it parses to.
pub proof fn zero_padding_ignored(b: Seq<u8>, n: nat)
    ensures
        parse_request(b + Seq::new(n, |i: int| 0u8)) == parse_request(b),
{
    let z = Seq::new(n, |i: int| 0u8);
    lemma_find_zero_padded(b, z, 0);
    crate::request::lemma_find_in_bounds(b, 0, b.len() as int, 0);
    assert(message_of(b + z) =~= message_of(b));
}


proof fn lemma_find_in_at(b: Seq<u8>, from: int, end: int, x: u8, t: int)
    requires
        0 <= from <= t < end <= b.len(),
        b[t] == x,
        forall|i: int| from <= i < t ==> b[i] != x,
    ensures
        find_in(b, from, end, x) == t,
    decreases t - from,
{
    if from < t {
        lemma_find_in_at(b, from + 1, end, x, t);
    }
}

/// One header line as the serializer writes it.
pub open spec fn header_line(k: Seq<char>, v: Seq<char>) -> Seq<char> {
    k + seq![':', ' '] + v + seq!['\r', '\n']
}

/// A header that reads back as written: the key holds no colon and no line
/// feed, the value no line feed, and the value does not start with whitespace.
pub open spec fn readable_header(k: Seq<char>, v: Seq<char>) -> bool {
    &&& free_of(k, ':')
    &&& free_of(k, '\n')
    &&& free_of(v, '\n')
    &&& (v.len() == 0 || !is_white(v[0]))
}

pub open spec fn body_of(post: Seq<u8>) -> Option<Seq<u8>> {
    if post.len() > 0 {
        Some(post)
    } else {
        None
    }
}

proof fn lemma_header_lines_concat(a: HeaderSeq, c: HeaderSeq)
    ensures
        header_lines(a + c) == header_lines(a) + header_lines(c),
    decreases c.len(),
{
    if c.len() == 0 {
        assert(a + c =~= a);
        assert(header_lines(a) + header_lines(c) =~= header_lines(a));
    } else {
        assert((a + c).drop_last() =~= a + c.drop_last());
        assert((a + c).last() == c.last());
        lemma_header_lines_concat(a, c.drop_last());
        assert(header_lines(a + c) =~= header_lines(a) + header_lines(c));
    }
}

proof fn lemma_encode_header_line(k: Seq<char>, v: Seq<char>)
    ensures
        encode_utf8(header_line(k, v)) == encode_utf8(k) + seq![58u8, 32u8] + encode_utf8(v) + seq![
            13u8,
            10u8,
        ],
{
    lemma_encode_concat(k + seq![':', ' '] + v, seq!['\r', '\n']);
    lemma_encode_concat(k + seq![':', ' '], v);
    lemma_encode_concat(k, seq![':', ' ']);
    lemma_encode_pair(':', ' ');
    lemma_encode_pair('\r', '\n');
}

proof fn lemma_encode_single(a: char)
    requires
        (a as u32) <= 0x7F,
    ensures
        encode_utf8(seq![a]) == seq![(a as u32) as u8],
{
    lemma_scalar_bytes(a as u32);
    assert(seq![a].drop_first() =~= Seq::<char>::empty());
    assert(encode_utf8(Seq::<char>::empty()) =~= Seq::<u8>::empty());
    assert(seq![a][0] == a);
    assert(encode_utf8(seq![a]) == encode_scalar(a as u32) + encode_utf8(Seq::<char>::empty()));
    assert(encode_utf8(seq![a]) =~= seq![(a as u32) as u8]);
}

proof fn lemma_encode_pair(a: char, b: char)
    requires
        (a as u32) <= 0x7F,
        (b as u32) <= 0x7F,
    ensures
        encode_utf8(seq![a, b]) == seq![(a as u32) as u8, (b as u32) as u8],
{
    lemma_scalar_bytes(a as u32);
    lemma_scalar_bytes(b as u32);
    let s = seq![a, b];
    assert(s.drop_first() =~= seq![b]);
    assert(seq![b].drop_first() =~= Seq::<char>::empty());
    assert(encode_utf8(Seq::<char>::empty()) =~= Seq::<u8>::empty());
    assert(seq![b][0] == b);
    assert(encode_utf8(seq![b]) == encode_scalar(b as u32) + encode_utf8(Seq::<char>::empty()));
    assert(encode_utf8(seq![b]) =~= seq![(b as u32) as u8]);
    assert(encode_utf8(s) =~= seq![(a as u32) as u8, (b as u32) as u8]);
}

proof fn lemma_parse_header_line(pre: Seq<u8>, k: Seq<char>, v: Seq<char>, post: Seq<u8>, acc: HeaderSeq)
    requires
        readable_header(k, v),
        !has_key(acc, k),
    ensures
        ({
            let b = pre + encode_utf8(header_line(k, v)) + post;
            parse_headers(b, pre.len() as int, acc) == parse_headers(
                b,
                (pre.len() + encode_utf8(header_line(k, v)).len()) as int,
                acc.push((k, v)),
            )
        }),
{
    broadcast use encode_utf8_valid_utf8, encode_utf8_decode_utf8;

    lemma_encode_header_line(k, v);
    lemma_encode_free_of(k, ':');
    lemma_encode_free_of(k, '\n');
    lemma_encode_free_of(v, '\n');
    let ek = encode_utf8(k);
    let ev = encode_utf8(v);
    let b = pre + encode_utf8(header_line(k, v)) + post;
    let pos = pre.len() as int;
    assert(b =~= pre + ek + seq![58u8, 32u8] + ev + seq![13u8, 10u8] + post);
    let c = pos + ek.len();
    let e = c + 2 + ev.len() + 1;
    assert forall|i: int| pos <= i < e implies b[i] != 10u8 by {
        if i < c {
            assert(b[i] == ek[i - pos]);
        } else if c + 2 <= i < c + 2 + ev.len() {
            assert(b[i] == ev[i - c - 2]);
        }
    }
    lemma_find_in_at(b, pos, b.len() as int, 10u8, e);
    assert(content_end(b, pos, e) == e - 1);
    let le = e - 1;
    assert forall|i: int| pos <= i < c implies b[i] != 58u8 by {
        assert(b[i] == ek[i - pos]);
    }
    lemma_find_in_at(b, pos, le, 58u8, c);
    assert(b.subrange(pos, c) =~= ek);
    let sv = seq![' '] + v;
    lemma_encode_concat(seq![' '], v);
    lemma_encode_single(' ');
    assert(b.subrange(c + 1, le) =~= encode_utf8(sv));
    assert(first_non_white(sv, 1) == 1) by {
        if v.len() > 0 {
            assert(sv[1] == v[0]);
        }
    }
    assert(is_white(sv[0]));
    assert(trim_start(sv) =~= v);
}

proof fn lemma_parse_blank_line(pre: Seq<u8>, post: Seq<u8>, acc: HeaderSeq)
    ensures
        parse_headers(pre + seq![13u8, 10u8] + post, pre.len() as int, acc) == Ok::<
            (HeaderSeq, Option<Seq<u8>>),
            crate::request::ParseError,
        >((acc, body_of(post))),
{
    let b = pre + seq![13u8, 10u8] + post;
    let pos = pre.len() as int;
    lemma_find_in_at(b, pos, b.len() as int, 10u8, pos + 1);
    if post.len() > 0 {
        assert(b.subrange(pos + 2, b.len() as int) =~= post);
    }
}

proof fn lemma_parse_header_lines(pre: Seq<u8>, hs: HeaderSeq, i: int, post: Seq<u8>)
    requires
        0 <= i <= hs.len(),
        keys_unique(hs),
        forall|j: int| 0 <= j < hs.len() ==> readable_header(#[trigger] hs[j].0, hs[j].1),
    ensures
        parse_headers(
            pre + encode_utf8(header_lines(hs)) + seq![13u8, 10u8] + post,
            (pre.len() + encode_utf8(header_lines(hs.take(i))).len()) as int,
            hs.take(i),
        ) == Ok::<(HeaderSeq, Option<Seq<u8>>), crate::request::ParseError>((hs, body_of(post))),
    decreases hs.len() - i,
{
    let b = pre + encode_utf8(header_lines(hs)) + seq![13u8, 10u8] + post;
    if i == hs.len() {
        assert(hs.take(i) =~= hs);
        lemma_parse_blank_line(pre + encode_utf8(header_lines(hs)), post, hs);
        assert(b =~= (pre + encode_utf8(header_lines(hs))) + seq![13u8, 10u8] + post);
    } else {
        let a = hs.take(i);
        let h = hs[i];
        let rest = hs.skip(i + 1);
        assert(hs.take(i + 1).drop_last() =~= a);
        assert(header_lines(hs.take(i + 1)) == header_lines(a) + header_line(h.0, h.1)) by {
            assert(hs.take(i + 1).last() == h);
            assert(header_lines(hs.take(i + 1)) =~= header_lines(a) + header_line(h.0, h.1));
        }
        assert(hs =~= hs.take(i + 1) + rest);
        lemma_header_lines_concat(hs.take(i + 1), rest);
        lemma_encode_concat(header_lines(a), header_line(h.0, h.1));
        lemma_encode_concat(header_lines(hs.take(i + 1)), header_lines(rest));
        let ea = encode_utf8(header_lines(a));
        let el = encode_utf8(header_line(h.0, h.1));
        let er = encode_utf8(header_lines(rest));
        assert(b =~= (pre + ea) + el + (er + seq![13u8, 10u8] + post));
        assert(!has_key(a, h.0)) by {
            if has_key(a, h.0) {
                let j = choose|j: int| 0 <= j < a.len() && a[j].0 == h.0;
                assert(hs[j].0 == hs[i].0);
            }
        }
        lemma_parse_header_line(pre + ea, h.0, h.1, er + seq![13u8, 10u8] + post, a);
        assert(a.push(h) =~= hs.take(i + 1));
        lemma_parse_header_lines(pre, hs, i + 1, post);
    }
}

/// A serialized response reads back: its first line is the protocol name
/// followed by the status, and the lines after it parse, as a request's header
/// lines do, to the same headers in the same order.
pub proof fn response_reads_back(status: Seq<char>, hs: HeaderSeq, body: Option<Seq<u8>>)
    requires
        free_of(status, '\n'),
        keys_unique(hs),
        forall|j: int| 0 <= j < hs.len() ==> readable_header(#[trigger] hs[j].0, hs[j].1),
    ensures
        ({
            let b = response_bytes(status, hs, body);
            let e = find_in(b, 0, b.len() as int, 10u8);
            let le = content_end(b, 0, e);
            &&& valid_utf8(b.subrange(0, le))
            &&& decode_utf8(b.subrange(0, le)) == seq!['H', 'T', 'T', 'P', '/', '1', '.', '1', ' ']
                + status
            &&& parse_headers(b, e + 1, Seq::empty()) is Ok
            &&& parse_headers(b, e + 1, Seq::empty())->Ok_0.0 == hs
        }),
{
    broadcast use encode_utf8_valid_utf8, encode_utf8_decode_utf8;

    let first = seq!['H', 'T', 'T', 'P', '/', '1', '.', '1', ' '] + status;
    let crlf = seq!['\r', '\n'];
    let post = match body {
        Some(x) => x,
        None => Seq::<u8>::empty(),
    };
    let b = response_bytes(status, hs, body);
    lemma_encode_concat(first + crlf + header_lines(hs), crlf);
    lemma_encode_concat(first + crlf, header_lines(hs));
    lemma_encode_concat(first, crlf);
    lemma_encode_pair('\r', '\n');
    assert(response_head(status, hs) =~= first + crlf + header_lines(hs) + crlf);
    let ef = encode_utf8(first);
    let pre = ef + seq![13u8, 10u8];
    assert(b =~= pre + encode_utf8(header_lines(hs)) + seq![13u8, 10u8] + post);
    assert(free_of(first, '\n')) by {
        assert forall|i: int| 0 <= i < first.len() implies first[i] != '\n' by {
            if i >= 9 {
                assert(first[i] == status[i - 9]);
            }
        }
    }
    lemma_encode_free_of(first, '\n');
    let e = ef.len() + 1;
    let e = e as int;
    assert forall|i: int| 0 <= i < e implies b[i] != 10u8 by {
        if i < ef.len() {
            assert(b[i] == ef[i]);
        }
    }
    lemma_find_in_at(b, 0, b.len() as int, 10u8, e);
    assert(b.subrange(0, ef.len() as int) =~= ef);
    assert(hs.take(0) =~= Seq::<(Seq<char>, Seq<char>)>::empty());
    assert(header_lines(hs.take(0)) =~= Seq::<char>::empty());
    lemma_parse_header_lines(pre, hs, 0, post);
}


/// Header lines come out in insertion order: the line of entry `i` follows the
/// lines of the entries before it and precedes those of the entries after it.
pub proof fn header_lines_in_order(hs: HeaderSeq, i: int)
    requires
        0 <= i < hs.len(),
    ensures
        header_lines(hs) == header_lines(hs.take(i)) + header_line(hs[i].0, hs[i].1) + header_lines(
            hs.skip(i + 1),
        ),
{
    let a = hs.take(i);
    let h = hs[i];
    let rest = hs.skip(i + 1);
    assert(hs.take(i + 1).drop_last() =~= a);
    assert(hs.take(i + 1).last() == h);
    assert(header_lines(hs.take(i + 1)) =~= header_lines(a) + header_line(h.0, h.1));
    assert(hs =~= hs.take(i + 1) + rest);
    lemma_header_lines_concat(hs.take(i + 1), rest);
}

proof fn lemma_find_in_none(b: Seq<u8>, from: int, end: int, x: u8)
    requires
        0 <= from <= end <= b.len(),
        forall|i: int| from <= i < end ==> b[i] != x,
    ensures
        find_in(b, from, end, x) == end,
    decreases end - from,
{
    if from < end {
        lemma_find_in_none(b, from + 1, end, x);
    }
}

proof fn lemma_header_lines_free_of(hs: HeaderSeq, c: char)
    requires
        (c as u32) < 0x80,
        c != ':',
        c != ' ',
        c != '\r',
        c != '\n',
        forall|j: int| 0 <= j < hs.len() ==> free_of(#[trigger] hs[j].0, c) && free_of(hs[j].1, c),
    ensures
        free_of(header_lines(hs), c),
    decreases hs.len(),
{
    if hs.len() > 0 {
        let p = hs.drop_last();
        assert forall|j: int| 0 <= j < p.len() implies free_of(#[trigger] p[j].0, c) && free_of(
            p[j].1,
            c,
        ) by {
            assert(p[j] == hs[j]);
        }
        lemma_header_lines_free_of(p, c);
        let l = hs.last();
        let k = hs.len() - 1;
        assert(0 <= k < hs.len());
        assert(free_of(hs[k].0, c));
        assert(free_of(hs[k].1, c));
        assert(l == hs[k]);
        let t = header_lines(hs);
        let a = header_lines(p);
        assert(t == a + l.0 + seq![':', ' '] + l.1 + seq!['\r', '\n']);
        assert forall|i: int| 0 <= i < t.len() implies t[i] != c by {
            if i < a.len() {
                assert(t[i] == a[i]);
            } else if i < a.len() + l.0.len() {
                assert(t[i] == l.0[i - a.len()]);
            } else if i < a.len() + l.0.len() + 2 {
            } else if i < a.len() + l.0.len() + 2 + l.1.len() {
                assert(t[i] == l.1[i - a.len() - l.0.len() - 2]);
            }
        }
    }
}

proof fn lemma_method_token_plain(m: RequestMethod)
    ensures
        free_of(method_token(m), ' '),
        free_of(method_token(m), '\n'),
        free_of(method_token(m), '\0'),
{
    let t = method_token(m);
    assert forall|i: int| 0 <= i < t.len() implies 'A' <= #[trigger] t[i] <= 'Z' by {
        match m {
            RequestMethod::GET => {},
            RequestMethod::POST => {},
            RequestMethod::PUT => {},
            RequestMethod::DELETE => {},
            RequestMethod::HEAD => {},
            RequestMethod::CONNECT => {},
            RequestMethod::OPTIONS => {},
            RequestMethod::TRACE => {},
            RequestMethod::PATCH => {},
        }
    }
}

pub open spec fn no_byte(s: Seq<u8>, x: u8) -> bool {
    forall|i: int| 0 <= i < s.len() ==> s[i] != x
}

proof fn lemma_request_without_zero(
    raw: Seq<u8>,
    et: Seq<u8>,
    ep: Seq<u8>,
    ev: Seq<u8>,
    eol: Seq<u8>,
    eh: Seq<u8>,
    body: Seq<u8>,
)
    requires
        raw == et + seq![32u8] + ep + seq![32u8] + ev + eol + eh + seq![13u8, 10u8] + body,
        eol == seq![13u8, 10u8] || eol == seq![10u8],
        no_byte(et, 0),
        no_byte(ep, 0),
        no_byte(ev, 0),
        no_byte(eh, 0),
        no_byte(body, 0),
    ensures
        message_of(raw) == raw,
{
    let s1 = et.len() as int;
    let s2 = s1 + 1 + ep.len();
    let le = s2 + 1 + ev.len();
    let hstart = le + eol.len();
    let bstart = hstart + eh.len() + 2;
    assert forall|i: int| 0 <= i < raw.len() implies raw[i] != 0u8 by {
        if i < s1 {
            assert(raw[i] == et[i]);
        } else if s1 < i < s2 {
            assert(raw[i] == ep[i - s1 - 1]);
        } else if s2 < i < le {
            assert(raw[i] == ev[i - s2 - 1]);
        } else if hstart <= i < hstart + eh.len() {
            assert(raw[i] == eh[i - hstart]);
        } else if bstart <= i {
            assert(raw[i] == body[i - bstart]);
        }
    }
    lemma_find_in_none(raw, 0, raw.len() as int, 0u8);
    assert(message_of(raw) =~= raw);
}

proof fn lemma_status_line_positions(
    raw: Seq<u8>,
    et: Seq<u8>,
    ep: Seq<u8>,
    ev: Seq<u8>,
    eol: Seq<u8>,
    eh: Seq<u8>,
    body: Seq<u8>,
)
    requires
        raw == et + seq![32u8] + ep + seq![32u8] + ev + eol + eh + seq![13u8, 10u8] + body,
        eol == seq![13u8, 10u8] || eol == seq![10u8],
        no_byte(et, 10),
        no_byte(ep, 10),
        no_byte(ev, 10),
        no_byte(et, 32),
        no_byte(ep, 32),
        no_byte(ev, 32),
        eol == seq![10u8] ==> no_byte(ev, 13),
    ensures
        ({
            let s1 = et.len() as int;
            let s2 = s1 + 1 + ep.len();
            let le = s2 + 1 + ev.len();
            &&& find_in(raw, 0, raw.len() as int, 10u8) == le + eol.len() - 1
            &&& content_end(raw, 0, le + eol.len() - 1) == le
            &&& find_in(raw, 0, le, 32u8) == s1
            &&& find_in(raw, s1 + 1, le, 32u8) == s2
            &&& find_in(raw, s2 + 1, le, 32u8) == le
            &&& raw.subrange(0, s1) == et
            &&& raw.subrange(s1 + 1, s2) == ep
            &&& raw.subrange(s2 + 1, le) == ev
        }),
{
    let s1 = et.len() as int;
    let s2 = s1 + 1 + ep.len();
    let le = s2 + 1 + ev.len();
    let e = le + eol.len() - 1;
    assert forall|i: int| 0 <= i < e implies raw[i] != 10u8 by {
        if i < s1 {
            assert(raw[i] == et[i]);
        } else if s1 < i < s2 {
            assert(raw[i] == ep[i - s1 - 1]);
        } else if s2 < i < le {
            assert(raw[i] == ev[i - s2 - 1]);
        }
    }
    lemma_find_in_at(raw, 0, raw.len() as int, 10u8, e);
    if eol.len() == 2 {
        assert(raw[le] == 13u8);
    } else if ev.len() > 0 {
        assert(raw[le - 1] == ev[ev.len() - 1]);
    } else {
        assert(raw[le - 1] == 32u8);
    }
    assert forall|i: int| 0 <= i < s1 implies raw[i] != 32u8 by {
        assert(raw[i] == et[i]);
    }
    lemma_find_in_at(raw, 0, le, 32u8, s1);
    assert forall|i: int| s1 + 1 <= i < s2 implies raw[i] != 32u8 by {
        assert(raw[i] == ep[i - s1 - 1]);
    }
    lemma_find_in_at(raw, s1 + 1, le, 32u8, s2);
    assert forall|i: int| s2 + 1 <= i < le implies raw[i] != 32u8 by {
        assert(raw[i] == ev[i - s2 - 1]);
    }
    lemma_find_in_none(raw, s2 + 1, le, 32u8);
    assert(raw.subrange(0, s1) =~= et);
    assert(raw.subrange(s1 + 1, s2) =~= ep);
    assert(raw.subrange(s2 + 1, le) =~= ev);
}

/// A request whose status line is a method's token, a path and a version,
/// separated by single spaces and ended by `\r\n` (or by a bare `\n` when
/// the version holds no `\r`), parses to that method,
/// path and version; the header lines and body that follow read back too.
pub proof fn status_line_reads_back(
    m: RequestMethod,
    path: Seq<char>,
    version: Seq<char>,
    crlf: bool,
    hs: HeaderSeq,
    body: Seq<u8>,
)
    requires
        crlf || free_of(version, '\r'),
        free_of(path, ' '),
        free_of(path, '\n'),
        free_of(path, '\0'),
        free_of(version, ' '),
        free_of(version, '\n'),
        free_of(version, '\0'),
        keys_unique(hs),
        forall|j: int| 0 <= j < hs.len() ==> readable_header(#[trigger] hs[j].0, hs[j].1),
        forall|j: int| 0 <= j < hs.len() ==> free_of(#[trigger] hs[j].0, '\0') && free_of(hs[j].1, '\0'),
        forall|j: int| 0 <= j < body.len() ==> body[j] != 0u8,
    ensures
        parse_request(
            encode_utf8(method_token(m) + seq![' '] + path + seq![' '] + version) + (if crlf {
                seq![13u8, 10u8]
            } else {
                seq![10u8]
            }) + encode_utf8(header_lines(hs)) + seq![13u8, 10u8] + body,
        ) == Ok::<crate::request::RequestModel, crate::request::ParseError>(
            (m, path, version, hs, body_of(body)),
        ),
{
    broadcast use encode_utf8_valid_utf8, encode_utf8_decode_utf8;

    let tok = method_token(m);
    let line = tok + seq![' '] + path + seq![' '] + version;
    let eol: Seq<u8> = if crlf {
        seq![13u8, 10u8]
    } else {
        seq![10u8]
    };
    let raw = encode_utf8(line) + eol + encode_utf8(header_lines(hs)) + seq![13u8, 10u8] + body;
    lemma_method_token_plain(m);
    method_token_round_trip(m);
    lemma_encode_single(' ');
    lemma_encode_concat(tok + seq![' '] + path + seq![' '], version);
    lemma_encode_concat(tok + seq![' '] + path, seq![' ']);
    lemma_encode_concat(tok + seq![' '], path);
    lemma_encode_concat(tok, seq![' ']);
    let et = encode_utf8(tok);
    let ep = encode_utf8(path);
    let ev = encode_utf8(version);
    let eh = encode_utf8(header_lines(hs));
    assert(encode_utf8(line) =~= et + seq![32u8] + ep + seq![32u8] + ev);
    assert(raw =~= et + seq![32u8] + ep + seq![32u8] + ev + eol + eh + seq![13u8, 10u8] + body);
    if !crlf {
        lemma_encode_free_of(version, '\r');
    }
    lemma_encode_free_of(tok, ' ');
    lemma_encode_free_of(tok, '\n');
    lemma_encode_free_of(tok, '\0');
    lemma_encode_free_of(path, ' ');
    lemma_encode_free_of(path, '\n');
    lemma_encode_free_of(path, '\0');
    lemma_encode_free_of(version, ' ');
    lemma_encode_free_of(version, '\n');
    lemma_encode_free_of(version, '\0');
    lemma_header_lines_free_of(hs, '\0');
    lemma_encode_free_of(header_lines(hs), '\0');
    lemma_request_without_zero(raw, et, ep, ev, eol, eh, body);
    lemma_status_line_positions(raw, et, ep, ev, eol, eh, body);
    let e = (et.len() + ep.len() + ev.len() + 1 + eol.len()) as int;
    assert(next_line(raw, e) == e + 1);
    let pre = et + seq![32u8] + ep + seq![32u8] + ev + eol;
    assert(raw =~= pre + eh + seq![13u8, 10u8] + body);
    assert(hs.take(0) =~= Seq::<(Seq<char>, Seq<char>)>::empty());
    assert(header_lines(hs.take(0)) =~= Seq::<char>::empty());
    lemma_parse_header_lines(pre, hs, 0, body);
}


/// A header line as a client may write it: key, colon, value, `\r\n`.
pub open spec fn raw_header_line(k: Seq<char>, v: Seq<char>) -> Seq<char> {
    k + seq![':'] + v + seq!['\r', '\n']
}

pub open spec fn raw_header_lines(pairs: HeaderSeq) -> Seq<char>
    decreases pairs.len(),
{
    if pairs.len() == 0 {
        Seq::empty()
    } else {
        raw_header_lines(pairs.drop_last()) + raw_header_line(pairs.last().0, pairs.last().1)
    }
}

/// The pairs with leading whitespace taken from each value.
pub open spec fn trimmed(pairs: HeaderSeq) -> HeaderSeq {
    Seq::new(pairs.len(), |i: int| (pairs[i].0, trim_start(pairs[i].1)))
}

/// A pair that a header line can carry: the key holds no colon and no line
/// feed, the value no line feed, and neither a zero character.
pub open spec fn plain_pair(k: Seq<char>, v: Seq<char>) -> bool {
    &&& free_of(k, ':')
    &&& free_of(k, '\n')
    &&& free_of(v, '\n')
    &&& free_of(k, '\0')
    &&& free_of(v, '\0')
}

proof fn lemma_raw_header_lines_concat(a: HeaderSeq, c: HeaderSeq)
    ensures
        raw_header_lines(a + c) == raw_header_lines(a) + raw_header_lines(c),
    decreases c.len(),
{
    if c.len() == 0 {
        assert(a + c =~= a);
        assert(raw_header_lines(a) + raw_header_lines(c) =~= raw_header_lines(a));
    } else {
        assert((a + c).drop_last() =~= a + c.drop_last());
        assert((a + c).last() == c.last());
        lemma_raw_header_lines_concat(a, c.drop_last());
        assert(raw_header_lines(a + c) =~= raw_header_lines(a) + raw_header_lines(c));
    }
}

proof fn lemma_raw_header_lines_no_zero(pairs: HeaderSeq)
    requires
        forall|j: int| 0 <= j < pairs.len() ==> plain_pair(#[trigger] pairs[j].0, pairs[j].1),
    ensures
        free_of(raw_header_lines(pairs), '\0'),
    decreases pairs.len(),
{
    if pairs.len() > 0 {
        let p = pairs.drop_last();
        assert forall|j: int| 0 <= j < p.len() implies plain_pair(#[trigger] p[j].0, p[j].1) by {
            assert(p[j] == pairs[j]);
        }
        lemma_raw_header_lines_no_zero(p);
        let k = pairs.len() - 1;
        assert(0 <= k < pairs.len());
        assert(plain_pair(pairs[k].0, pairs[k].1));
        let l = pairs.last();
        assert(l == pairs[k]);
        let t = raw_header_lines(pairs);
        let a = raw_header_lines(p);
        assert(t == a + l.0 + seq![':'] + l.1 + seq!['\r', '\n']);
        assert forall|i: int| 0 <= i < t.len() implies t[i] != '\0' by {
            if i < a.len() {
                assert(t[i] == a[i]);
            } else if i < a.len() + l.0.len() {
                assert(t[i] == l.0[i - a.len()]);
            } else if i < a.len() + l.0.len() + 1 {
            } else if i < a.len() + l.0.len() + 1 + l.1.len() {
                assert(t[i] == l.1[i - a.len() - l.0.len() - 1]);
            }
        }
    }
}

proof fn lemma_parse_raw_header_line(pre: Seq<u8>, k: Seq<char>, v: Seq<char>, post: Seq<u8>, acc: HeaderSeq)
    requires
        plain_pair(k, v),
    ensures
        ({
            let b = pre + encode_utf8(raw_header_line(k, v)) + post;
            parse_headers(b, pre.len() as int, acc) == parse_headers(
                b,
                (pre.len() + encode_utf8(raw_header_line(k, v)).len()) as int,
                header_insert(acc, k, trim_start(v)),
            )
        }),
{
    broadcast use encode_utf8_valid_utf8, encode_utf8_decode_utf8;

    lemma_encode_concat(k + seq![':'] + v, seq!['\r', '\n']);
    lemma_encode_concat(k + seq![':'], v);
    lemma_encode_concat(k, seq![':']);
    lemma_encode_single(':');
    lemma_encode_pair('\r', '\n');
    lemma_encode_free_of(k, ':');
    lemma_encode_free_of(k, '\n');
    lemma_encode_free_of(v, '\n');
    let ek = encode_utf8(k);
    let ev = encode_utf8(v);
    let b = pre + encode_utf8(raw_header_line(k, v)) + post;
    let pos = pre.len() as int;
    assert(b =~= pre + ek + seq![58u8] + ev + seq![13u8, 10u8] + post);
    let c = pos + ek.len();
    let e = c + 1 + ev.len() + 1;
    assert forall|i: int| pos <= i < e implies b[i] != 10u8 by {
        if i < c {
            assert(b[i] == ek[i - pos]);
        } else if c + 1 <= i < c + 1 + ev.len() {
            assert(b[i] == ev[i - c - 1]);
        }
    }
    lemma_find_in_at(b, pos, b.len() as int, 10u8, e);
    assert(content_end(b, pos, e) == e - 1);
    let le = e - 1;
    assert forall|i: int| pos <= i < c implies b[i] != 58u8 by {
        assert(b[i] == ek[i - pos]);
    }
    lemma_find_in_at(b, pos, le, 58u8, c);
    assert(b.subrange(pos, c) =~= ek);
    assert(b.subrange(c + 1, le) =~= ev);
}

proof fn lemma_parse_raw_header_lines(pre: Seq<u8>, pairs: HeaderSeq, i: int, post: Seq<u8>)
    requires
        0 <= i <= pairs.len(),
        forall|j: int| 0 <= j < pairs.len() ==> plain_pair(#[trigger] pairs[j].0, pairs[j].1),
    ensures
        parse_headers(
            pre + encode_utf8(raw_header_lines(pairs)) + seq![13u8, 10u8] + post,
            (pre.len() + encode_utf8(raw_header_lines(pairs.take(i))).len()) as int,
            insert_all(trimmed(pairs).take(i)),
        ) == Ok::<(HeaderSeq, Option<Seq<u8>>), crate::request::ParseError>(
            (insert_all(trimmed(pairs)), body_of(post)),
        ),
    decreases pairs.len() - i,
{
    let b = pre + encode_utf8(raw_header_lines(pairs)) + seq![13u8, 10u8] + post;
    if i == pairs.len() {
        assert(pairs.take(i) =~= pairs);
        assert(trimmed(pairs).take(i) =~= trimmed(pairs));
        lemma_parse_blank_line(pre + encode_utf8(raw_header_lines(pairs)), post, insert_all(trimmed(pairs)));
        assert(b =~= (pre + encode_utf8(raw_header_lines(pairs))) + seq![13u8, 10u8] + post);
    } else {
        let a = pairs.take(i);
        let h = pairs[i];
        let rest = pairs.skip(i + 1);
        assert(pairs.take(i + 1).drop_last() =~= a);
        assert(raw_header_lines(pairs.take(i + 1)) == raw_header_lines(a) + raw_header_line(h.0, h.1)) by {
            assert(pairs.take(i + 1).last() == h);
            assert(raw_header_lines(pairs.take(i + 1)) =~= raw_header_lines(a) + raw_header_line(h.0, h.1));
        }
        assert(pairs =~= pairs.take(i + 1) + rest);
        lemma_raw_header_lines_concat(pairs.take(i + 1), rest);
        lemma_encode_concat(raw_header_lines(a), raw_header_line(h.0, h.1));
        lemma_encode_concat(raw_header_lines(pairs.take(i + 1)), raw_header_lines(rest));
        let ea = encode_utf8(raw_header_lines(a));
        let el = encode_utf8(raw_header_line(h.0, h.1));
        let er = encode_utf8(raw_header_lines(rest));
        assert(b =~= (pre + ea) + el + (er + seq![13u8, 10u8] + post));
        assert(plain_pair(pairs[i].0, pairs[i].1));
        lemma_parse_raw_header_line(pre + ea, h.0, h.1, er + seq![13u8, 10u8] + post, insert_all(trimmed(pairs).take(i)));
        let t = trimmed(pairs);
        assert(t.take(i + 1).drop_last() =~= t.take(i));
        assert(t.take(i + 1).last() == (h.0, trim_start(h.1)));
        lemma_parse_raw_header_lines(pre, pairs, i + 1, post);
    }
}

/// Header lines that repeat a key parse to one entry per key, holding the
/// value of the key's last line with its leading whitespace removed.
pub proof fn later_header_line_wins(
    m: RequestMethod,
    path: Seq<char>,
    version: Seq<char>,
    pairs: HeaderSeq,
    body: Seq<u8>,
)
    requires
        free_of(path, ' '),
        free_of(path, '\n'),
        free_of(path, '\0'),
        free_of(version, ' '),
        free_of(version, '\n'),
        free_of(version, '\0'),
        forall|j: int| 0 <= j < pairs.len() ==> plain_pair(#[trigger] pairs[j].0, pairs[j].1),
        forall|j: int| 0 <= j < body.len() ==> body[j] != 0u8,
    ensures
        ({
            let raw = encode_utf8(method_token(m) + seq![' '] + path + seq![' '] + version) + seq![
                13u8,
                10u8,
            ] + encode_utf8(raw_header_lines(pairs)) + seq![13u8, 10u8] + body;
            &&& parse_request(raw) is Ok
            &&& parse_request(raw)->Ok_0.3 == insert_all(trimmed(pairs))
            &&& keys_unique(parse_request(raw)->Ok_0.3)
            &&& forall|key: Seq<char>| #[trigger] has_key(parse_request(raw)->Ok_0.3, key) <==> exists|i: int|
                0 <= i < pairs.len() && #[trigger] pairs[i].0 == key
            &&& forall|j: int|
                0 <= j < pairs.len() && (forall|l: int| j < l < pairs.len() ==> pairs[l].0 != pairs[j].0)
                    ==> header_lookup(parse_request(raw)->Ok_0.3, #[trigger] pairs[j].0) == Some(
                    trim_start(pairs[j].1),
                )
        }),
{
    broadcast use encode_utf8_valid_utf8, encode_utf8_decode_utf8;

    let tok = method_token(m);
    let line = tok + seq![' '] + path + seq![' '] + version;
    let eol = seq![13u8, 10u8];
    let raw = encode_utf8(line) + eol + encode_utf8(raw_header_lines(pairs)) + seq![13u8, 10u8] + body;
    lemma_method_token_plain(m);
    method_token_round_trip(m);
    lemma_encode_single(' ');
    lemma_encode_concat(tok + seq![' '] + path + seq![' '], version);
    lemma_encode_concat(tok + seq![' '] + path, seq![' ']);
    lemma_encode_concat(tok + seq![' '], path);
    lemma_encode_concat(tok, seq![' ']);
    let et = encode_utf8(tok);
    let ep = encode_utf8(path);
    let ev = encode_utf8(version);
    let eh = encode_utf8(raw_header_lines(pairs));
    assert(encode_utf8(line) =~= et + seq![32u8] + ep + seq![32u8] + ev);
    assert(raw =~= et + seq![32u8] + ep + seq![32u8] + ev + eol + eh + seq![13u8, 10u8] + body);
    lemma_encode_free_of(tok, ' ');
    lemma_encode_free_of(tok, '\n');
    lemma_encode_free_of(tok, '\0');
    lemma_encode_free_of(path, ' ');
    lemma_encode_free_of(path, '\n');
    lemma_encode_free_of(path, '\0');
    lemma_encode_free_of(version, ' ');
    lemma_encode_free_of(version, '\n');
    lemma_encode_free_of(version, '\0');
    lemma_raw_header_lines_no_zero(pairs);
    lemma_encode_free_of(raw_header_lines(pairs), '\0');
    lemma_request_without_zero(raw, et, ep, ev, eol, eh, body);
    lemma_status_line_positions(raw, et, ep, ev, eol, eh, body);
    let e = (et.len() + ep.len() + ev.len() + 1 + eol.len()) as int;
    assert(next_line(raw, e) == e + 1);
    let pre = et + seq![32u8] + ep + seq![32u8] + ev + eol;
    assert(raw =~= pre + eh + seq![13u8, 10u8] + body);
    assert(pairs.take(0) =~= Seq::<(Seq<char>, Seq<char>)>::empty());
    assert(raw_header_lines(pairs.take(0)) =~= Seq::<char>::empty());
    assert(trimmed(pairs).take(0) =~= Seq::<(Seq<char>, Seq<char>)>::empty());
    lemma_parse_raw_header_lines(pre, pairs, 0, body);
    let t = trimmed(pairs);
    let hs = insert_all(t);
    crate::headers::lemma_insert_all_keys(t);
    assert forall|key: Seq<char>| #[trigger] has_key(hs, key) <==> exists|i: int|
        0 <= i < pairs.len() && #[trigger] pairs[i].0 == key by {
        if has_key(hs, key) {
            let i = choose|i: int| 0 <= i < t.len() && #[trigger] t[i].0 == key;
            assert(pairs[i].0 == key);
        }
        if exists|i: int| 0 <= i < pairs.len() && #[trigger] pairs[i].0 == key {
            let i = choose|i: int| 0 <= i < pairs.len() && #[trigger] pairs[i].0 == key;
            assert(t[i].0 == key);
        }
    }
    assert forall|j: int|
        0 <= j < pairs.len() && (forall|l: int| j < l < pairs.len() ==> pairs[l].0 != pairs[j].0)
            implies header_lookup(hs, #[trigger] pairs[j].0) == Some(trim_start(pairs[j].1)) by {
        assert forall|l: int| j < l < t.len() implies t[l].0 != t[j].0 by {
            assert(pairs[l].0 != pairs[j].0);
        }
        later_header_wins(t, t[j].0, j);
    }
}

} // verus!
