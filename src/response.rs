//! Responses and their bytes on the wire.
use vstd::prelude::*;
use vstd::string::{StrSliceExecFns, StringExecFns};
use vstd::utf8::encode_utf8;
use crate::headers::{HeaderMap, HeaderSeq};
use crate::request::bytes_view;

verus! {

/// The header lines of a response, one `key: value\r\n` per entry, in order.
pub open spec fn header_lines(hs: HeaderSeq) -> Seq<char>
    decreases hs.len(),
{
    if hs.len() == 0 {
        Seq::empty()
    } else {
        header_lines(hs.drop_last()) + hs.last().0 + seq![':', ' '] + hs.last().1 + seq!['\r', '\n']
    }
}

/// The text of a response before its body.
pub open spec fn response_head(status: Seq<char>, hs: HeaderSeq) -> Seq<char> {
    seq!['H', 'T', 'T', 'P', '/', '1', '.', '1', ' '] + status + seq!['\r', '\n'] + header_lines(hs)
        + seq!['\r', '\n']
}

/// The bytes of a response on the wire.
pub open spec fn response_bytes(status: Seq<char>, hs: HeaderSeq, body: Option<Seq<u8>>) -> Seq<u8> {
    encode_utf8(response_head(status, hs)) + match body {
        Some(b) => b,
        None => Seq::empty(),
    }
}

/// An HTTP response: a status phrase such as `200 Ok`, headers and a body.
pub struct Response {
    status: String,
    headers: HeaderMap,
    body: Option<Vec<u8>>,
}

impl View for Response {
    type V = (Seq<char>, HeaderSeq, Option<Seq<u8>>);

    closed spec fn view(&self) -> (Seq<char>, HeaderSeq, Option<Seq<u8>>) {
        (self.status@, self.headers@, bytes_view(self.body))
    }
}

impl Response {
    pub fn new(status: String, headers: HeaderMap, body: Option<Vec<u8>>) -> (r: Response)
        ensures
            r@ == (status@, headers@, bytes_view(body)),
    {
        Response { status, headers, body }
    }

    /// The response's bytes: status line, header lines in insertion order,
    /// a blank line, then the body as it is.
    pub fn into_bytes(self) -> (r: Vec<u8>)
        ensures
            r@ == response_bytes(self@.0, self@.1, self@.2),
    {
        proof {
            reveal_strlit("HTTP/1.1 ");
            reveal_strlit("\r\n");
            reveal_strlit(": ");
            assert("HTTP/1.1 "@ =~= seq!['H', 'T', 'T', 'P', '/', '1', '.', '1', ' ']);
            assert("\r\n"@ =~= seq!['\r', '\n']);
            assert(": "@ =~= seq![':', ' ']);
        }
        let ghost hs = self.headers@;
        let mut text = String::new();
        text.append("HTTP/1.1 ");
        text.append(self.status.as_str());
        text.append("\r\n");
        let ghost before = text@;
        let n = self.headers.len();
        let mut i: usize = 0;
        while i < n
            invariant
                n == hs.len(),
                hs == self.headers@,
                i <= n,
                text@ == before + header_lines(hs.subrange(0, i as int)),
            decreases n - i,
        {
            text.append(self.headers.key_at(i).as_str());
            text.append(": ");
            text.append(self.headers.value_at(i).as_str());
            text.append("\r\n");
            proof {
                let p = hs.subrange(0, i + 1);
                assert(p.drop_last() =~= hs.subrange(0, i as int));
                assert(p.last() == hs[i as int]);
                reveal_strlit(": ");
                reveal_strlit("\r\n");
                assert(": "@ =~= seq![':', ' ']);
                assert("\r\n"@ =~= seq!['\r', '\n']);
                assert(text@ =~= before + header_lines(p));
            }
            i = i + 1;
        }
        text.append("\r\n");
        assert(hs.subrange(0, n as int) =~= hs);
        assert(text@ =~= response_head(self.status@, hs));
        let mut bytes = text.as_str().as_bytes_vec();
        match self.body {
            Some(mut b) => {
                bytes.append(&mut b);
            },
            None => {
                assert(bytes@ =~= bytes@ + Seq::<u8>::empty());
            },
        }
        bytes
    }
}

} // verus!
