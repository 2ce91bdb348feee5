//! Request methods and the table that maps tokens to them.
use vstd::prelude::*;
use vstd::string::StrSliceExecFns;

verus! {

/// The HTTP request methods that the server recognises.
#[derive(Debug, Clone, Copy, PartialEq, Eq, Structural)]
pub enum RequestMethod {
    GET,
    POST,
    PUT,
    DELETE,
    HEAD,
    CONNECT,
    OPTIONS,
    TRACE,
    PATCH,
}

/// A method token that names none of the recognised methods.
#[derive(Debug, Clone, Copy, PartialEq, Eq, Structural)]
pub struct RequestMethodParseError;

impl RequestMethodParseError {
    /// A description of the error.
    pub fn message(&self) -> (r: &'static str)
        ensures
            r@ == "invalid HTTP request method"@,
    {
        "invalid HTTP request method"
    }
}

/// The token that names each method on the wire.
pub open spec fn method_token(m: RequestMethod) -> Seq<char> {
    match m {
        RequestMethod::GET => seq!['G', 'E', 'T'],
        RequestMethod::POST => seq!['P', 'O', 'S', 'T'],
        RequestMethod::PUT => seq!['P', 'U', 'T'],
        RequestMethod::DELETE => seq!['D', 'E', 'L', 'E', 'T', 'E'],
        RequestMethod::HEAD => seq!['H', 'E', 'A', 'D'],
        RequestMethod::CONNECT => seq!['C', 'O', 'N', 'N', 'E', 'C', 'T'],
        RequestMethod::OPTIONS => seq!['O', 'P', 'T', 'I', 'O', 'N', 'S'],
        RequestMethod::TRACE => seq!['T', 'R', 'A', 'C', 'E'],
        RequestMethod::PATCH => seq!['P', 'A', 'T', 'C', 'H'],
    }
}

/// The method that a token names, if any: an exact, case-sensitive match.
pub open spec fn method_of(s: Seq<char>) -> Option<RequestMethod> {
    if s == method_token(RequestMethod::GET) {
        Some(RequestMethod::GET)
    } else if s == method_token(RequestMethod::POST) {
        Some(RequestMethod::POST)
    } else if s == method_token(RequestMethod::PUT) {
        Some(RequestMethod::PUT)
    } else if s == method_token(RequestMethod::DELETE) {
        Some(RequestMethod::DELETE)
    } else if s == method_token(RequestMethod::HEAD) {
        Some(RequestMethod::HEAD)
    } else if s == method_token(RequestMethod::CONNECT) {
        Some(RequestMethod::CONNECT)
    } else if s == method_token(RequestMethod::OPTIONS) {
        Some(RequestMethod::OPTIONS)
    } else if s == method_token(RequestMethod::TRACE) {
        Some(RequestMethod::TRACE)
    } else if s == method_token(RequestMethod::PATCH) {
        Some(RequestMethod::PATCH)
    } else {
        None
    }
}

pub(crate) fn same_chars(s: &str, t: &str) -> (r: bool)
    ensures
        r == (s@ == t@),
{
    let n = s.unicode_len();
    if n != t.unicode_len() {
        return false;
    }
    let mut i: usize = 0;
    while i < n
        invariant
            n == s@.len(),
            n == t@.len(),
            i <= n,
            s@.subrange(0, i as int) == t@.subrange(0, i as int),
        decreases n - i,
    {
        if s.get_char(i) != t.get_char(i) {
            return false;
        }
        assert(s@.subrange(0, i + 1) == s@.subrange(0, i as int).push(s@[i as int]));
        assert(t@.subrange(0, i + 1) == t@.subrange(0, i as int).push(t@[i as int]));
        i = i + 1;
    }
    assert(s@ == s@.subrange(0, n as int));
    assert(t@ == t@.subrange(0, n as int));
    true
}

impl RequestMethod {
    /// Looks a token up in the method table.
    pub fn parse(s: &str) -> (r: Result<RequestMethod, RequestMethodParseError>)
        ensures
            match method_of(s@) {
                Some(m) => r == Ok::<RequestMethod, RequestMethodParseError>(m),
                None => r is Err,
            },
    {
        proof {
            reveal_strlit("GET");
            reveal_strlit("POST");
            reveal_strlit("PUT");
            reveal_strlit("DELETE");
            reveal_strlit("HEAD");
            reveal_strlit("CONNECT");
            reveal_strlit("OPTIONS");
            reveal_strlit("TRACE");
            reveal_strlit("PATCH");
            assert("GET"@ =~= method_token(RequestMethod::GET));
            assert("POST"@ =~= method_token(RequestMethod::POST));
            assert("PUT"@ =~= method_token(RequestMethod::PUT));
            assert("DELETE"@ =~= method_token(RequestMethod::DELETE));
            assert("HEAD"@ =~= method_token(RequestMethod::HEAD));
            assert("CONNECT"@ =~= method_token(RequestMethod::CONNECT));
            assert("OPTIONS"@ =~= method_token(RequestMethod::OPTIONS));
            assert("TRACE"@ =~= method_token(RequestMethod::TRACE));
            assert("PATCH"@ =~= method_token(RequestMethod::PATCH));
        }
        if same_chars(s, "GET") {
            Ok(RequestMethod::GET)
        } else if same_chars(s, "POST") {
            Ok(RequestMethod::POST)
        } else if same_chars(s, "PUT") {
            Ok(RequestMethod::PUT)
        } else if same_chars(s, "DELETE") {
            Ok(RequestMethod::DELETE)
        } else if same_chars(s, "HEAD") {
            Ok(RequestMethod::HEAD)
        } else if same_chars(s, "CONNECT") {
            Ok(RequestMethod::CONNECT)
        } else if same_chars(s, "OPTIONS") {
            Ok(RequestMethod::OPTIONS)
        } else if same_chars(s, "TRACE") {
            Ok(RequestMethod::TRACE)
        } else if same_chars(s, "PATCH") {
            Ok(RequestMethod::PATCH)
        } else {
            Err(RequestMethodParseError)
        }
    }

    /// The token that names this method.
    pub fn as_str(&self) -> (r: &'static str)
        ensures
            r@ == method_token(*self),
    {
        match self {
            RequestMethod::GET => {
                proof {
                    reveal_strlit("GET");
                    assert("GET"@ =~= method_token(RequestMethod::GET));
                }
                "GET"
            },
            RequestMethod::POST => {
                proof {
                    reveal_strlit("POST");
                    assert("POST"@ =~= method_token(RequestMethod::POST));
                }
                "POST"
            },
            RequestMethod::PUT => {
                proof {
                    reveal_strlit("PUT");
                    assert("PUT"@ =~= method_token(RequestMethod::PUT));
                }
                "PUT"
            },
            RequestMethod::DELETE => {
                proof {
                    reveal_strlit("DELETE");
                    assert("DELETE"@ =~= method_token(RequestMethod::DELETE));
                }
                "DELETE"
            },
            RequestMethod::HEAD => {
                proof {
                    reveal_strlit("HEAD");
                    assert("HEAD"@ =~= method_token(RequestMethod::HEAD));
                }
                "HEAD"
            },
            RequestMethod::CONNECT => {
                proof {
                    reveal_strlit("CONNECT");
                    assert("CONNECT"@ =~= method_token(RequestMethod::CONNECT));
                }
                "CONNECT"
            },
            RequestMethod::OPTIONS => {
                proof {
                    reveal_strlit("OPTIONS");
                    assert("OPTIONS"@ =~= method_token(RequestMethod::OPTIONS));
                }
                "OPTIONS"
            },
            RequestMethod::TRACE => {
                proof {
                    reveal_strlit("TRACE");
                    assert("TRACE"@ =~= method_token(RequestMethod::TRACE));
                }
                "TRACE"
            },
            RequestMethod::PATCH => {
                proof {
                    reveal_strlit("PATCH");
                    assert("PATCH"@ =~= method_token(RequestMethod::PATCH));
                }
                "PATCH"
            },
        }
    }
}

impl std::str::FromStr for RequestMethod {
    type Err = RequestMethodParseError;

    fn from_str(s: &str) -> (r: Result<RequestMethod, RequestMethodParseError>)
        ensures
            match method_of(s@) {
                Some(m) => r == Ok::<RequestMethod, RequestMethodParseError>(m),
                None => r is Err,
            },
    {
        RequestMethod::parse(s)
    }
}

} // verus!
