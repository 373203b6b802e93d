//! Parsing of one protocol reply: status line, header block and body.
use vstd::prelude::*;

use crate::text::{trim, trimmed};

verus! {

/// One header line: its name as received and its trimmed value.
pub struct Header {
    pub name: String,
    pub value: String,
}

/// A parsed reply.
pub struct Response {
    pub status_code: String,
    /// The headers in the order received; a later one shadows an earlier one
    /// of the same name.
    pub headers: Vec<Header>,
    pub body: String,
}

/// Why a reply could not be parsed.
#[derive(PartialEq, Eq, Structural, Debug, Clone, Copy)]
pub enum ParseError {
    /// The status line lacks the version, the numeric code, a delimiter or
    /// its line end.
    MalformedStatusLine,
    /// A line of the header block is not `token ":" value`.
    MalformedHeader,
    /// The header block never reaches a blank line.
    UnterminatedHeaders,
}

/// Header names and values, in order.
pub type HeaderList = Seq<(Seq<char>, Seq<char>)>;

/// The mathematical content of a reply.
pub struct ResponseView {
    pub status_code: Seq<char>,
    pub headers: HeaderList,
    pub body: Seq<char>,
}

pub open spec fn header_pairs(hs: Seq<Header>) -> HeaderList {
    hs.map_values(|h: Header| (h.name@, h.value@))
}

impl View for Response {
    type V = ResponseView;

    open spec fn view(&self) -> ResponseView {
        ResponseView {
            status_code: self.status_code@,
            headers: header_pairs(self.headers@),
            body: self.body@,
        }
    }
}

/// The version token and the space after it that open a status line.
pub open spec fn version_prefix() -> Seq<char> {
    seq!['H', 'T', 'T', 'P', '/', '1', '.', '1', ' ']
}

/// A line end (`"\r\n"`) starts at `i`.
pub open spec fn crlf_at(s: Seq<char>, i: int) -> bool {
    0 <= i && i + 1 < s.len() && s[i] == '\r' && s[i + 1] == '\n'
}

/// A line end directly followed by another one starts at `k`.
pub open spec fn blank_line_at(s: Seq<char>, k: int) -> bool {
    crlf_at(s, k) && crlf_at(s, k + 2)
}

/// The first line end at or after `from`.
pub open spec fn next_crlf(s: Seq<char>, from: int) -> Option<int>
    decreases s.len() - from,
{
    if from < 0 || from + 1 >= s.len() {
        None
    } else if crlf_at(s, from) {
        Some(from)
    } else {
        next_crlf(s, from + 1)
    }
}

pub open spec fn is_digit(c: char) -> bool {
    '0' <= c && c <= '9'
}

/// Letters, digits, hyphen and underscore make up a header name.
pub open spec fn is_token_char(c: char) -> bool {
    ('a' <= c && c <= 'z') || ('A' <= c && c <= 'Z') || is_digit(c) || c == '-' || c == '_'
}

/// The end of the run of digits that starts at `i`.
pub open spec fn digits_end(s: Seq<char>, i: int) -> int
    decreases s.len() - i,
{
    if 0 <= i < s.len() && is_digit(s[i]) {
        digits_end(s, i + 1)
    } else {
        i
    }
}

/// The end of the run of header-name characters that starts at `i`.
pub open spec fn token_end(s: Seq<char>, i: int) -> int
    decreases s.len() - i,
{
    if 0 <= i < s.len() && is_token_char(s[i]) {
        token_end(s, i + 1)
    } else {
        i
    }
}

/// The status code and the position where the header block starts.
pub open spec fn status_line(s: Seq<char>) -> Option<(Seq<char>, int)> {
    if s.len() >= 9 && s.subrange(0, 9) == version_prefix() {
        let d = digits_end(s, 9);
        if d > 9 && d < s.len() && s[d] == ' ' {
            match next_crlf(s, d + 1) {
                Some(e) => Some((s.subrange(9, d), e + 2)),
                None => None,
            }
        } else {
            None
        }
    } else {
        None
    }
}

/// The headers from `p` on, and the position where the body starts.
pub open spec fn header_block(s: Seq<char>, p: int) -> Result<(HeaderList, int), ParseError>
    decreases s.len() - p,
{
    match next_crlf(s, p) {
        None => Err(ParseError::UnterminatedHeaders),
        Some(e) => if e == p {
            Ok((seq![], p + 2))
        } else {
            let t = token_end(s, p);
            if t < e && s[t] == ':' && p < e && e + 2 <= s.len() {
                match header_block(s, e + 2) {
                    Ok((hs, b)) => Ok(
                        (seq![(s.subrange(p, t), trimmed(s.subrange(t + 1, e)))] + hs, b),
                    ),
                    Err(x) => Err(x),
                }
            } else {
                Err(ParseError::MalformedHeader)
            }
        },
    }
}

/// What a reply `s` parses to.
pub open spec fn parse_spec(s: Seq<char>) -> Result<ResponseView, ParseError> {
    match status_line(s) {
        None => Err(ParseError::MalformedStatusLine),
        Some((code, p)) => match header_block(s, p) {
            Err(x) => Err(x),
            Ok((hs, b)) => Ok(
                ResponseView { status_code: code, headers: hs, body: s.subrange(b, s.len() as int) },
            ),
        },
    }
}

/// The value of the last header named exactly `key`.
pub open spec fn lookup(hs: HeaderList, key: Seq<char>) -> Option<Seq<char>>
    decreases hs.len(),
{
    if hs.len() == 0 {
        None
    } else if hs.last().0 == key {
        Some(hs.last().1)
    } else {
        lookup(hs.drop_last(), key)
    }
}

pub open spec fn with_prefix(acc: HeaderList, r: Result<(HeaderList, int), ParseError>) -> Result<
    (HeaderList, int),
    ParseError,
> {
    match r {
        Ok((hs, b)) => Ok((acc + hs, b)),
        Err(x) => Err(x),
    }
}

proof fn lemma_next_crlf(s: Seq<char>, from: int)
    requires
        0 <= from,
    ensures
        match next_crlf(s, from) {
            Some(e) => from <= e && crlf_at(s, e) && forall|j: int|
                from <= j < e ==> !#[trigger] crlf_at(s, j),
            None => forall|j: int| from <= j ==> !#[trigger] crlf_at(s, j),
        },
    decreases s.len() - from,
{
    if from + 1 < s.len() && !crlf_at(s, from) {
        lemma_next_crlf(s, from + 1);
    }
}

proof fn lemma_digits_end(s: Seq<char>, i: int)
    requires
        0 <= i,
    ensures
        i <= digits_end(s, i),
        forall|j: int| i <= j < digits_end(s, i) ==> is_digit(#[trigger] s[j]),
        digits_end(s, i) <= s.len() || digits_end(s, i) == i,
    decreases s.len() - i,
{
    if 0 <= i < s.len() && is_digit(s[i]) {
        lemma_digits_end(s, i + 1);
    }
}

proof fn lemma_token_end(s: Seq<char>, i: int)
    requires
        0 <= i,
    ensures
        i <= token_end(s, i),
        forall|j: int| i <= j < token_end(s, i) ==> is_token_char(#[trigger] s[j]),
        token_end(s, i) <= s.len() || token_end(s, i) == i,
    decreases s.len() - i,
{
    if 0 <= i < s.len() && is_token_char(s[i]) {
        lemma_token_end(s, i + 1);
    }
}

/// The first line end at or after `from`.
fn find_crlf(s: &str, n: usize, from: usize) -> (r: Option<usize>)
    requires
        n == s@.len(),
        from <= n,
    ensures
        match r {
            Some(e) => next_crlf(s@, from as int) == Some(e as int),
            None => next_crlf(s@, from as int) is None,
        },
{
    let mut i = from;
    while n > 0 && i < n - 1
        invariant
            from <= i <= n,
            n == s@.len(),
            next_crlf(s@, from as int) == next_crlf(s@, i as int),
        decreases n - i,
    {
        if s.get_char(i) == '\r' && s.get_char(i + 1) == '\n' {
            return Some(i);
        }
        i = i + 1;
    }
    None
}

fn digits_from(s: &str, n: usize, from: usize) -> (r: usize)
    requires
        n == s@.len(),
        from <= n,
    ensures
        r as int == digits_end(s@, from as int),
        from <= r <= n,
{
    let mut i = from;
    while i < n && is_ascii_digit(s.get_char(i))
        invariant
            from <= i <= n,
            n == s@.len(),
            digits_end(s@, from as int) == digits_end(s@, i as int),
        decreases n - i,
    {
        i = i + 1;
    }
    i
}

fn token_from(s: &str, n: usize, from: usize) -> (r: usize)
    requires
        n == s@.len(),
        from <= n,
    ensures
        r as int == token_end(s@, from as int),
        from <= r <= n,
{
    let mut i = from;
    while i < n && token_char(s.get_char(i))
        invariant
            from <= i <= n,
            n == s@.len(),
            token_end(s@, from as int) == token_end(s@, i as int),
        decreases n - i,
    {
        i = i + 1;
    }
    i
}

fn is_ascii_digit(c: char) -> (r: bool)
    ensures
        r == is_digit(c),
{
    '0' <= c && c <= '9'
}

fn token_char(c: char) -> (r: bool)
    ensures
        r == is_token_char(c),
{
    ('a' <= c && c <= 'z') || ('A' <= c && c <= 'Z') || is_ascii_digit(c) || c == '-' || c == '_'
}

fn has_version_prefix(s: &str, n: usize) -> (r: bool)
    requires
        n == s@.len(),
    ensures
        r == (n >= 9 && s@.subrange(0, 9) == version_prefix()),
{
    if n < 9 {
        return false;
    }
    let r = s.get_char(0) == 'H' && s.get_char(1) == 'T' && s.get_char(2) == 'T' && s.get_char(3)
        == 'P' && s.get_char(4) == '/' && s.get_char(5) == '1' && s.get_char(6) == '.'
        && s.get_char(7) == '1' && s.get_char(8) == ' ';
    if r {
        assert(s@.subrange(0, 9) =~= version_prefix());
    } else {
        assert(s@.subrange(0, 9) != version_prefix()) by {
            if s@.subrange(0, 9) == version_prefix() {
                assert(s@.subrange(0, 9)[0] == 'H');
            }
        }
    }
    r
}

/// Reads the status line: the status code, and where the header block starts.
fn read_status_line(input: &str, n: usize) -> (r: Option<(String, usize)>)
    requires
        n == input@.len(),
    ensures
        match r {
            Some((code, p)) => status_line(input@) == Some((code@, p as int)) && p <= n,
            None => status_line(input@) is None,
        },
{
    if !has_version_prefix(input, n) {
        return None;
    }
    let d = digits_from(input, n, 9);
    if d == 9 || d >= n || input.get_char(d) != ' ' {
        return None;
    }
    let e = match find_crlf(input, n, d + 1) {
        Some(e) => e,
        None => {
            return None;
        },
    };
    proof {
        lemma_next_crlf(input@, d + 1);
    }
    Some((input.substring_char(9, d).to_owned(), e + 2))
}

/// Reads the header line that starts at `p` and ends at the line end `e`.
fn read_header_entry(input: &str, n: usize, p: usize, e: usize) -> (r: Option<Header>)
    requires
        n == input@.len(),
        p <= e <= n,
    ensures
        match r {
            Some(h) => {
                let t = token_end(input@, p as int);
                &&& t < e && input@[t] == ':'
                &&& h.name@ == input@.subrange(p as int, t)
                &&& h.value@ == trimmed(input@.subrange(t + 1, e as int))
            },
            None => !(token_end(input@, p as int) < e && input@[token_end(input@, p as int)] == ':'),
        },
{
    let t = token_from(input, n, p);
    if t < e && input.get_char(t) == ':' {
        let name = input.substring_char(p, t).to_owned();
        let value = trim(input.substring_char(t + 1, e)).to_owned();
        Some(Header { name, value })
    } else {
        None
    }
}

/// Reads the header block that starts at `start`: the headers, and where the
/// body starts.
fn read_headers(input: &str, n: usize, start: usize) -> (r: Result<(Vec<Header>, usize), ParseError>)
    requires
        n == input@.len(),
        start <= n,
    ensures
        match r {
            Ok((hs, b)) => header_block(input@, start as int) == Ok::<(HeaderList, int), ParseError>(
                (header_pairs(hs@), b as int),
            ) && b <= n,
            Err(x) => header_block(input@, start as int) == Err::<(HeaderList, int), ParseError>(x),
        },
{
    let mut p: usize = start;
    let mut headers: Vec<Header> = Vec::new();
    assert(header_pairs(headers@) + seq![] =~= seq![]);
    loop
        invariant
            start <= p <= n,
            n == input@.len(),
            header_block(input@, start as int) == with_prefix(
                header_pairs(headers@),
                header_block(input@, p as int),
            ),
        decreases n - p,
    {
        let e = match find_crlf(input, n, p) {
            Some(e) => e,
            None => {
                return Err(ParseError::UnterminatedHeaders);
            },
        };
        proof {
            lemma_next_crlf(input@, p as int);
        }
        if e == p {
            assert(header_pairs(headers@) + seq![] =~= header_pairs(headers@));
            return Ok((headers, p + 2));
        }
        match read_header_entry(input, n, p, e) {
            Some(h) => {
                let ghost before = header_pairs(headers@);
                let ghost pair = (h.name@, h.value@);
                headers.push(h);
                proof {
                    assert(header_pairs(headers@) =~= before.push(pair));
                    match header_block(input@, e + 2) {
                        Ok((hs, b)) => {
                            assert(before + (seq![pair] + hs) =~= before.push(pair) + hs);
                        },
                        Err(x) => {},
                    }
                }
                p = e + 2;
            },
            None => {
                return Err(ParseError::MalformedHeader);
            },
        }
    }
}

/// Parses a fully buffered reply into its status code, headers and body.
pub fn parse(input: &str) -> (r: Result<Response, ParseError>)
    ensures
        match r {
            Ok(resp) => parse_spec(input@) == Ok::<ResponseView, ParseError>(resp@),
            Err(e) => parse_spec(input@) == Err::<ResponseView, ParseError>(e),
        },
{
    let n = input.unicode_len();
    let (status_code, start) = match read_status_line(input, n) {
        Some(s) => s,
        None => {
            return Err(ParseError::MalformedStatusLine);
        },
    };
    let (headers, b) = match read_headers(input, n, start) {
        Ok(hb) => hb,
        Err(x) => {
            return Err(x);
        },
    };
    let body = input.substring_char(b, n).to_owned();
    Ok(Response { status_code, headers, body })
}

impl Response {
    /// The value of the last header whose name is exactly `name`, with the
    /// case as received.
    pub fn header(&self, name: &str) -> (r: Option<&String>)
        ensures
            match r {
                Some(v) => lookup(self@.headers, name@) == Some(v@),
                None => lookup(self@.headers, name@) is None,
            },
    {
        let key = name.to_owned();
        let ghost hs = self@.headers;
        let mut i = self.headers.len();
        assert(hs.subrange(0, i as int) =~= hs);
        while i > 0
            invariant
                i <= self.headers@.len(),
                hs == header_pairs(self.headers@),
                key@ == name@,
                lookup(hs, name@) == lookup(hs.subrange(0, i as int), name@),
            decreases i,
        {
            let h = &self.headers[i - 1];
            let ghost sub = hs.subrange(0, i as int);
            assert(sub.last() == (h.name@, h.value@));
            if h.name == key {
                return Some(&h.value);
            }
            assert(sub.drop_last() =~= hs.subrange(0, i - 1));
            i = i - 1;
        }
        None
    }
}

/// Header lookup is exact: a name is found only if a header was received
/// under exactly that name, in the same case.
pub proof fn lemma_lookup_exact(hs: HeaderList, key: Seq<char>)
    ensures
        lookup(hs, key) is Some <==> exists|i: int| 0 <= i < hs.len() && (#[trigger] hs[i]).0 == key,
        lookup(hs, key) is Some ==> exists|i: int|
            0 <= i < hs.len() && #[trigger] hs[i] == (key, lookup(hs, key)->0),
    decreases hs.len(),
{
    if hs.len() > 0 {
        let init = hs.drop_last();
        lemma_lookup_exact(init, key);
        if hs.last().0 != key {
            if exists|i: int| 0 <= i < hs.len() && (#[trigger] hs[i]).0 == key {
                let i = choose|i: int| 0 <= i < hs.len() && (#[trigger] hs[i]).0 == key;
                assert(init[i] == hs[i]);
            }
            if lookup(hs, key) is Some {
                let i = choose|i: int|
                    0 <= i < init.len() && #[trigger] init[i] == (key, lookup(init, key)->0);
                assert(hs[i] == init[i]);
            }
        } else {
            assert(hs[hs.len() - 1] == hs.last());
        }
    }
}

proof fn lemma_block_ends_at_first_blank_line(s: Seq<char>, p: int)
    requires
        2 <= p,
        crlf_at(s, p - 2),
        forall|j: int| 0 <= j < p - 2 ==> !#[trigger] blank_line_at(s, j),
        header_block(s, p) is Ok,
    ensures
        blank_line_at(s, header_block(s, p)->Ok_0.1 - 4),
        forall|j: int| 0 <= j < header_block(s, p)->Ok_0.1 - 4 ==> !#[trigger] blank_line_at(s, j),
    decreases s.len() - p,
{
    lemma_next_crlf(s, p);
    let e = next_crlf(s, p)->0;
    if e != p {
        assert forall|j: int| 0 <= j < e implies !#[trigger] blank_line_at(s, j) by {
            if j >= p - 2 {
                if j == p - 1 {
                    assert(!crlf_at(s, j));
                } else if j >= p {
                    assert(!crlf_at(s, j));
                }
            }
        }
        lemma_block_ends_at_first_blank_line(s, e + 2);
    }
}

proof fn lemma_next_crlf_prefix(s: Seq<char>, m: int, from: int)
    requires
        0 <= from,
        next_crlf(s, from) is Some,
        next_crlf(s, from)->0 + 2 <= m <= s.len(),
    ensures
        next_crlf(s.subrange(0, m), from) == next_crlf(s, from),
    decreases s.len() - from,
{
    let t = s.subrange(0, m);
    lemma_next_crlf(s, from);
    if from + 1 < m {
        assert(t[from] == s[from] && t[from + 1] == s[from + 1]);
    }
    if !crlf_at(s, from) {
        lemma_next_crlf_prefix(s, m, from + 1);
    }
}

proof fn lemma_digits_end_prefix(s: Seq<char>, m: int, i: int)
    requires
        0 <= i,
        digits_end(s, i) < m <= s.len(),
    ensures
        digits_end(s.subrange(0, m), i) == digits_end(s, i),
    decreases s.len() - i,
{
    lemma_digits_end(s, i);
    if i < m {
        assert(s.subrange(0, m)[i] == s[i]);
    }
    if 0 <= i < s.len() && is_digit(s[i]) {
        lemma_digits_end_prefix(s, m, i + 1);
    }
}

proof fn lemma_token_end_prefix(s: Seq<char>, m: int, i: int)
    requires
        0 <= i,
        token_end(s, i) < m <= s.len(),
    ensures
        token_end(s.subrange(0, m), i) == token_end(s, i),
    decreases s.len() - i,
{
    lemma_token_end(s, i);
    if i < m {
        assert(s.subrange(0, m)[i] == s[i]);
    }
    if 0 <= i < s.len() && is_token_char(s[i]) {
        lemma_token_end_prefix(s, m, i + 1);
    }
}

proof fn lemma_header_block_prefix(s: Seq<char>, m: int, p: int)
    requires
        0 <= p,
        header_block(s, p) is Ok,
        header_block(s, p)->Ok_0.1 <= m <= s.len(),
    ensures
        header_block(s.subrange(0, m), p) == header_block(s, p),
        p + 2 <= header_block(s, p)->Ok_0.1,
    decreases s.len() - p,
{
    let t = s.subrange(0, m);
    lemma_next_crlf(s, p);
    let e = next_crlf(s, p)->0;
    if e == p {
        lemma_next_crlf_prefix(s, m, p);
    } else {
        let k = token_end(s, p);
        lemma_token_end(s, p);
        assert(k < e && s[k] == ':');
        lemma_header_block_prefix(s, m, e + 2);
        lemma_next_crlf_prefix(s, m, p);
        lemma_token_end_prefix(s, m, p);
        assert(t[k] == s[k]);
        assert(t.subrange(p, k) =~= s.subrange(p, k));
        assert(t.subrange(k + 1, e) =~= s.subrange(k + 1, e));
    }
}

/// For every reply that parses, the body is exactly what follows the first
/// blank line (`"\r\n\r\n"`), and the headers are all read before it: the
/// text up to that blank line alone parses to the same status and headers,
/// with an empty body.
pub proof fn lemma_body_follows_first_blank_line(raw: Seq<char>)
    requires
        parse_spec(raw) is Ok,
    ensures
        exists|k: int|
            #![trigger blank_line_at(raw, k)]
            {
                &&& blank_line_at(raw, k)
                &&& forall|j: int| 0 <= j < k ==> !#[trigger] blank_line_at(raw, j)
                &&& parse_spec(raw)->Ok_0.body == raw.subrange(k + 4, raw.len() as int)
                &&& parse_spec(raw.subrange(0, k + 4)) == Ok::<ResponseView, ParseError>(
                    ResponseView {
                        status_code: parse_spec(raw)->Ok_0.status_code,
                        headers: parse_spec(raw)->Ok_0.headers,
                        body: seq![],
                    },
                )
            },
{
    let d = digits_end(raw, 9);
    lemma_digits_end(raw, 9);
    lemma_next_crlf(raw, d + 1);
    let e = next_crlf(raw, d + 1)->0;
    assert forall|j: int| 0 <= j < e implies !#[trigger] blank_line_at(raw, j) by {
        if j < 9 {
            assert(raw.subrange(0, 9)[j] == raw[j]);
        }
        if j <= d {
            assert(!crlf_at(raw, j));
        } else {
            assert(!crlf_at(raw, j));
        }
    }
    lemma_block_ends_at_first_blank_line(raw, e + 2);
    let b = header_block(raw, e + 2)->Ok_0.1;
    let k = b - 4;
    let head = raw.subrange(0, b);
    lemma_header_block_prefix(raw, b, e + 2);
    lemma_digits_end_prefix(raw, b, 9);
    lemma_next_crlf_prefix(raw, b, d + 1);
    assert(head.subrange(0, 9) =~= raw.subrange(0, 9));
    assert(head[d] == raw[d]);
    assert(head.subrange(9, d) =~= raw.subrange(9, d));
    assert(head.subrange(b, b) =~= seq![]);
    assert(blank_line_at(raw, k));
}

} // verus!
