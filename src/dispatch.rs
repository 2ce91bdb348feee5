//! What the server does with one connection: refuse, look a file up, answer.
use vstd::prelude::*;
use vstd::string::StringExecFns;
use crate::http::RequestMethod;
use crate::headers::{HeaderMap, HeaderSeq};
use crate::request::{Request, parse_request};
use crate::response::{Response, response_bytes};

verus! {

pub open spec fn digit_char(d: nat) -> char {
    ((d + 48) as u8) as char
}

/// The decimal digits of a number, most significant first.
pub open spec fn decimal(n: nat) -> Seq<char>
    decreases n,
{
    if n < 10 {
        seq![digit_char(n)]
    } else {
        decimal(n / 10) + seq![digit_char(n % 10)]
    }
}

fn digit_text(d: usize) -> (r: &'static str)
    requires
        d < 10,
    ensures
        r@ == seq![digit_char(d as nat)],
{
    match d {
        0 => {
            proof {
                reveal_strlit("0");
                assert("0"@ =~= seq![digit_char(0)]);
            }
            "0"
        },
        1 => {
            proof {
                reveal_strlit("1");
                assert("1"@ =~= seq![digit_char(1)]);
            }
            "1"
        },
        2 => {
            proof {
                reveal_strlit("2");
                assert("2"@ =~= seq![digit_char(2)]);
            }
            "2"
        },
        3 => {
            proof {
                reveal_strlit("3");
                assert("3"@ =~= seq![digit_char(3)]);
            }
            "3"
        },
        4 => {
            proof {
                reveal_strlit("4");
                assert("4"@ =~= seq![digit_char(4)]);
            }
            "4"
        },
        5 => {
            proof {
                reveal_strlit("5");
                assert("5"@ =~= seq![digit_char(5)]);
            }
            "5"
        },
        6 => {
            proof {
                reveal_strlit("6");
                assert("6"@ =~= seq![digit_char(6)]);
            }
            "6"
        },
        7 => {
            proof {
                reveal_strlit("7");
                assert("7"@ =~= seq![digit_char(7)]);
            }
            "7"
        },
        8 => {
            proof {
                reveal_strlit("8");
                assert("8"@ =~= seq![digit_char(8)]);
            }
            "8"
        },
        9 => {
            proof {
                reveal_strlit("9");
                assert("9"@ =~= seq![digit_char(9)]);
            }
            "9"
        },
        _ => {
            proof {
                reveal_strlit("9");
                assert("9"@ =~= seq![digit_char(9)]);
            }
            "9"
        },
    }
}

/// The decimal text of a number.
pub fn decimal_text(n: usize) -> (r: String)
    ensures
        r@ == decimal(n as nat),
    decreases n,
{
    if n < 10 {
        String::from_str(digit_text(n))
    } else {
        let mut r = decimal_text(n / 10);
        r.append(digit_text(n % 10));
        r
    }
}

pub open spec fn status_ok() -> Seq<char> {
    "200 Ok"@
}

pub open spec fn status_not_found() -> Seq<char> {
    "404 Not Found"@
}

pub open spec fn status_not_allowed() -> Seq<char> {
    "405 Method Not Allowed"@
}

/// The headers of a response without a body.
pub open spec fn empty_body_headers() -> HeaderSeq {
    seq![("Connection"@, "close"@), ("Content-Length"@, "0"@)]
}

/// The headers of a response that carries a file of `n` bytes.
pub open spec fn file_headers(n: nat) -> HeaderSeq {
    seq![
        ("Content-Type"@, "text/html; charset=UTF-8"@),
        ("Content-Length"@, decimal(n)),
        ("Connection"@, "close"@),
    ]
}

fn empty_body_header_map() -> (r: HeaderMap)
    ensures
        r@ == empty_body_headers(),
        r.wf(),
{
    proof {
        reveal_strlit("Connection");
        reveal_strlit("Content-Length");
    }
    let mut h = HeaderMap::new();
    h.insert(String::from_str("Connection"), String::from_str("close"));
    assert(h@ =~= seq![("Connection"@, "close"@)]);
    assert("Connection"@.len() == 10 && "Content-Length"@.len() == 14);
    assert(h@[0].0 != "Content-Length"@);
    h.insert(String::from_str("Content-Length"), String::from_str("0"));
    assert(h@ =~= empty_body_headers());
    h
}

/// The response to a request whose method is not GET.
pub fn method_not_allowed() -> (r: Response)
    ensures
        r@ == (status_not_allowed(), empty_body_headers(), None::<Seq<u8>>),
{
    Response::new(String::from_str("405 Method Not Allowed"), empty_body_header_map(), None)
}

/// The response to a GET whose file could not be read.
pub fn not_found() -> (r: Response)
    ensures
        r@ == (status_not_found(), empty_body_headers(), None::<Seq<u8>>),
{
    Response::new(String::from_str("404 Not Found"), empty_body_header_map(), None)
}

/// The response that carries a file's bytes.
pub fn found(file: Vec<u8>) -> (r: Response)
    ensures
        r@ == (status_ok(), file_headers(file@.len()), Some(file@)),
{
    proof {
        reveal_strlit("Content-Type");
        reveal_strlit("Content-Length");
        reveal_strlit("Connection");
    }
    let mut h = HeaderMap::new();
    h.insert(String::from_str("Content-Type"), String::from_str("text/html; charset=UTF-8"));
    assert(h@ =~= seq![("Content-Type"@, "text/html; charset=UTF-8"@)]);
    assert("Content-Type"@.len() == 12 && "Content-Length"@.len() == 14);
    assert("Connection"@.len() == 10);
    assert(h@[0].0 != "Content-Length"@);
    h.insert(String::from_str("Content-Length"), decimal_text(file.len()));
    assert(h@ =~= seq![("Content-Type"@, "text/html; charset=UTF-8"@), ("Content-Length"@, decimal(file@.len()))]);
    assert(h@[0].0 != "Connection"@);
    assert(h@[1].0 != "Connection"@);
    h.insert(String::from_str("Connection"), String::from_str("close"));
    assert(h@ =~= file_headers(file@.len()));
    Response::new(String::from_str("200 Ok"), h, Some(file))
}

/// What to do next with a connection.
pub enum Action {
    /// Close the connection without writing anything.
    Close,
    /// Write these bytes, then close the connection.
    Send(Vec<u8>),
    /// Read the file under this name and hand the outcome to `on_lookup`.
    Read(String),
}

/// Decides what to do with the bytes read from a connection: a request that
/// does not parse closes the connection, a method other than GET is refused,
/// and a GET asks for the file at the base directory joined with the path.
pub fn on_request(raw: &[u8], base_dir: &str) -> (r: Action)
    ensures
        match parse_request(raw@) {
            Err(_) => r is Close,
            Ok(model) => if model.0 == RequestMethod::GET {
                r is Read && r->Read_0@ == base_dir@ + model.1
            } else {
                r is Send && r->Send_0@ == response_bytes(
                    status_not_allowed(),
                    empty_body_headers(),
                    None,
                )
            },
        },
{
    let request = match Request::new(raw) {
        Ok(req) => req,
        Err(_) => return Action::Close,
    };
    if request.method != RequestMethod::GET {
        return Action::Send(method_not_allowed().into_bytes());
    }
    let mut key = String::from_str(base_dir);
    key.append(request.path.as_str());
    Action::Read(key)
}

/// The bytes to send once the file lookup has finished: the file with
/// `200 Ok`, or `404 Not Found` when it could not be read.
pub fn on_lookup(file: Option<Vec<u8>>) -> (r: Vec<u8>)
    ensures
        match file {
            Some(f) => r@ == response_bytes(status_ok(), file_headers(f@.len()), Some(f@)),
            None => r@ == response_bytes(status_not_found(), empty_body_headers(), None),
        },
{
    match file {
        Some(f) => found(f).into_bytes(),
        None => not_found().into_bytes(),
    }
}

} // verus!
