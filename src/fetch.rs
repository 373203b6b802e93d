//! The decisions of the redirect-following fetcher: where to connect, what
//! to send, and what to do with each reply.
use vstd::prelude::*;

use crate::response::{lookup, Response, ResponseView};

verus! {

/// Where a request goes: a host, and the path asked for (from its `/` on).
pub struct Target {
    pub host: String,
    pub path: String,
}

/// The scheme prefix every fetched address starts with.
pub open spec fn scheme_prefix() -> Seq<char> {
    seq!['h', 't', 't', 'p', ':', '/', '/']
}

/// The first `/` at or after `from`.
pub open spec fn next_slash(s: Seq<char>, from: int) -> Option<int>
    decreases s.len() - from,
{
    if from < 0 || from >= s.len() {
        None
    } else if s[from] == '/' {
        Some(from)
    } else {
        next_slash(s, from + 1)
    }
}

/// The host and path of an address `http://<host>/<path>`, if it has that
/// form.
pub open spec fn split_spec(url: Seq<char>) -> Option<(Seq<char>, Seq<char>)> {
    if url.len() >= 7 && url.subrange(0, 7) == scheme_prefix() {
        match next_slash(url, 7) {
            Some(k) => Some((url.subrange(7, k), url.subrange(k, url.len() as int))),
            None => None,
        }
    } else {
        None
    }
}

/// Splits `http://<host>/<path>` into the host and the path with its leading
/// `/`; `None` when the scheme prefix or the path is missing.
pub fn split_url(url: &str) -> (r: Option<Target>)
    ensures
        match r {
            Some(t) => split_spec(url@) == Some((t.host@, t.path@)),
            None => split_spec(url@) is None,
        },
{
    let n = url.unicode_len();
    if n < 7 {
        return None;
    }
    let prefix_ok = url.get_char(0) == 'h' && url.get_char(1) == 't' && url.get_char(2) == 't'
        && url.get_char(3) == 'p' && url.get_char(4) == ':' && url.get_char(5) == '/'
        && url.get_char(6) == '/';
    if !prefix_ok {
        assert(url@.subrange(0, 7) != scheme_prefix()) by {
            if url@.subrange(0, 7) == scheme_prefix() {
                assert(url@.subrange(0, 7)[0] == 'h');
            }
        }
        return None;
    }
    assert(url@.subrange(0, 7) =~= scheme_prefix());
    let mut k: usize = 7;
    while k < n && url.get_char(k) != '/'
        invariant
            7 <= k <= n,
            n == url@.len(),
            next_slash(url@, 7) == next_slash(url@, k as int),
        decreases n - k,
    {
        k = k + 1;
    }
    if k == n {
        return None;
    }
    let host = url.substring_char(7, k).to_owned();
    let path = url.substring_char(k, n).to_owned();
    Some(Target { host, path })
}

/// The request for `path`, asking the peer to close the connection after
/// its reply.
pub fn request_text(path: &str) -> (r: String)
    ensures
        r@ == "GET "@ + path@ + " HTTP/1.1\r\nConnection: close\r\n\r\n"@,
{
    let mut r = String::from_str("GET ");
    r.append(path);
    r.append(" HTTP/1.1\r\nConnection: close\r\n\r\n");
    r
}

/// What a reply leads to.
#[derive(Debug)]
pub enum Outcome {
    /// Fetch this address next.
    Redirect(String),
    /// The body is now the document.
    Loaded,
    /// The reply is not markup: the document stays as it was.
    Ignored,
}

/// A reply that cannot be followed.
#[derive(PartialEq, Eq, Structural, Debug, Clone, Copy)]
pub enum FetchError {
    /// A redirect without a `Location` header.
    MissingLocation,
}

/// The reply redirects.
pub open spec fn is_redirect(r: ResponseView) -> bool {
    r.status_code == "301"@
}

/// The reply declares its body as markup.
pub open spec fn is_markup(r: ResponseView) -> bool {
    lookup(r.headers, "Content-Type"@) == Some("text/html"@)
}

/// Applies one reply to the current document: a redirect names the next
/// address, a markup reply replaces the document with its body, and any other
/// reply leaves the document as it was.
pub fn handle_response(document: &mut String, resp: &Response) -> (r: Result<Outcome, FetchError>)
    ensures
        is_redirect(resp@) ==> final(document)@ == old(document)@ && match lookup(
            resp@.headers,
            "Location"@,
        ) {
            Some(l) => r is Ok && r->Ok_0 is Redirect && r->Ok_0->Redirect_0@ == l,
            None => r == Err::<Outcome, FetchError>(FetchError::MissingLocation),
        },
        !is_redirect(resp@) && is_markup(resp@) ==> final(document)@ == resp@.body && r is Ok
            && r->Ok_0 is Loaded,
        !is_redirect(resp@) && !is_markup(resp@) ==> final(document)@ == old(document)@ && r is Ok
            && r->Ok_0 is Ignored,
{
    let moved = "301".to_owned();
    if resp.status_code == moved {
        return match resp.header("Location") {
            Some(l) => Ok(Outcome::Redirect(l.clone())),
            None => Err(FetchError::MissingLocation),
        };
    }
    let html = "text/html".to_owned();
    let markup = match resp.header("Content-Type") {
        Some(v) => *v == html,
        None => false,
    };
    if markup {
        *document = resp.body.clone();
        Ok(Outcome::Loaded)
    } else {
        Ok(Outcome::Ignored)
    }
}

} // verus!
