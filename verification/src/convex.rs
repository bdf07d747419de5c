//! The addresses and errors of the Convex backend client.
//!
//! Sending requests and holding the socket are the host's; the library
//! builds the addresses they go to and the errors they report.
use vstd::prelude::*;

verus! {

/// An error of a Convex call.
pub struct ConvexError(pub String);

impl ConvexError {
    /// The error as text: `ConvexError: ` and the message.
    pub fn message(&self) -> (m: String)
        ensures
            m@ == "ConvexError: "@ + self.0@,
    {
        let mut m = String::from_str("ConvexError: ");
        m.append(self.0.as_str());
        m
    }
}

/// The three kinds of call.
#[derive(PartialEq, Eq, Structural, Clone, Copy, Debug)]
pub enum Endpoint {
    /// Reads data.
    Query,
    /// Writes data.
    Mutation,
    /// Runs server-side logic.
    Action,
}

/// The path segment of an endpoint.
pub open spec fn endpoint_name(e: Endpoint) -> Seq<char> {
    match e {
        Endpoint::Query => "query"@,
        Endpoint::Mutation => "mutation"@,
        Endpoint::Action => "action"@,
    }
}

/// The path segment of an endpoint.
pub fn endpoint_str(e: Endpoint) -> (s: &'static str)
    ensures
        s@ == endpoint_name(e),
{
    match e {
        Endpoint::Query => "query",
        Endpoint::Mutation => "mutation",
        Endpoint::Action => "action",
    }
}

/// The address a call of kind `e` is posted to: `{url}/api/{endpoint}`.
pub fn api_url(url: &str, e: Endpoint) -> (r: String)
    ensures
        r@ == url@ + "/api/"@ + endpoint_name(e),
{
    let mut r = String::from_str(url);
    r.append("/api/");
    r.append(endpoint_str(e));
    r
}

/// `s` with every occurrence of the non-empty `from`, found left to right
/// without overlap, replaced by `to`.
pub open spec fn replaced(s: Seq<char>, from: Seq<char>, to: Seq<char>) -> Seq<char>
    decreases s.len(),
{
    if from.len() == 0 || s.len() == 0 {
        s
    } else if s.len() >= from.len() && s.subrange(0, from.len() as int) == from {
        to + replaced(s.skip(from.len() as int), from, to)
    } else {
        seq![s[0]] + replaced(s.drop_first(), from, to)
    }
}

/// Whether `from` occurs in `s` at position `i`.
fn occurs_at(s: &str, i: usize, from: &str) -> (r: bool)
    requires
        i <= s@.len(),
    ensures
        r == (s@.len() - i >= from@.len() && s@.subrange(i as int, i + from@.len()) == from@),
{
    let n = s.unicode_len();
    let m = from.unicode_len();
    if n - i < m {
        return false;
    }
    let mut k: usize = 0;
    while k < m
        invariant
            n == s@.len(),
            m == from@.len(),
            i + m <= n,
            k <= m,
            forall|j: int| 0 <= j < k ==> s@[i + j] == from@[j],
        decreases m - k,
    {
        if s.get_char(i + k) != from.get_char(k) {
            proof {
                assert(s@.subrange(i as int, i + m)[k as int] != from@[k as int]);
            }
            return false;
        }
        k = k + 1;
    }
    proof {
        assert(s@.subrange(i as int, i + m) =~= from@);
    }
    true
}

/// `s` with every occurrence of `from` replaced by `to` (`str::replace`).
pub fn replace_all(s: &str, from: &str, to: &str) -> (r: String)
    requires
        from@.len() > 0,
    ensures
        r@ == replaced(s@, from@, to@),
{
    let n = s.unicode_len();
    let m = from.unicode_len();
    let mut out = String::from_str("");
    let mut i: usize = 0;
    proof {
        reveal_strlit("");
        assert(s@.skip(0) =~= s@);
    }
    while i < n
        invariant
            n == s@.len(),
            m == from@.len(),
            m > 0,
            i <= n,
            replaced(s@, from@, to@) == out@ + replaced(s@.skip(i as int), from@, to@),
        decreases n - i,
    {
        let ghost rest = s@.skip(i as int);
        if occurs_at(s, i, from) {
            proof {
                assert(rest.subrange(0, m as int) =~= s@.subrange(i as int, i + m));
                assert(rest.skip(m as int) =~= s@.skip(i + m));
            }
            out.append(to);
            i = i + m;
        } else {
            let piece = s.substring_char(i, i + 1);
            proof {
                if rest.len() >= m {
                    assert(rest.subrange(0, m as int) =~= s@.subrange(i as int, i + m));
                }
                assert(rest.drop_first() =~= s@.skip(i + 1));
                assert(piece@ =~= seq![rest[0]]);
            }
            out.append(piece);
            i = i + 1;
        }
    }
    proof {
        assert(s@.skip(n as int) =~= Seq::<char>::empty());
    }
    out
}

/// The socket address for live queries: the http or https scheme of `url`
/// becomes ws or wss, and `/ws` is appended.
pub fn ws_url(url: &str) -> (r: String)
    ensures
        r@ == replaced(replaced(url@, "https://"@, "wss://"@), "http://"@, "ws://"@) + "/ws"@,
{
    proof {
        reveal_strlit("https://");
        reveal_strlit("http://");
    }
    let secure = replace_all(url, "https://", "wss://");
    let mut r = replace_all(secure.as_str(), "http://", "ws://");
    r.append("/ws");
    r
}

/// The decimal digits of `n`.
pub open spec fn decimal(n: nat) -> Seq<char>
    decreases n,
{
    if n < 10 {
        seq![digit_char(n)]
    } else {
        decimal(n / 10) + seq![digit_char(n % 10)]
    }
}

/// The character of digit `d`.
pub open spec fn digit_char(d: nat) -> char {
    "0123456789"@[d as int]
}

/// The decimal digits of `n`.
pub fn decimal_string(n: u16) -> (r: String)
    ensures
        r@ == decimal(n as nat),
    decreases n,
{
    proof {
        reveal_strlit("0123456789");
    }
    let d = (n % 10) as usize;
    let digit = "0123456789".substring_char(d, d + 1);
    proof {
        assert(digit@ =~= seq![digit_char(d as nat)]);
    }
    if n < 10 {
        String::from_str(digit)
    } else {
        let mut r = decimal_string(n / 10);
        r.append(digit);
        r
    }
}

/// The error for an HTTP response whose status is not a success:
/// `HTTP` and the status code.
pub fn http_error(status: u16) -> (e: ConvexError)
    ensures
        e.0@ == "HTTP "@ + decimal(status as nat),
{
    let mut m = String::from_str("HTTP ");
    let code = decimal_string(status);
    m.append(code.as_str());
    ConvexError(m)
}

} // verus!
