//! HTTP requests: the method set, the request value, its builder, and the
//! parser that reads one request off the front of a byte buffer.

use vstd::prelude::*;
use vstd::slice::slice_subrange;
use vstd::string::StringSliceAdditionalSpecFns;
use vstd::utf8::encode_utf8;

use crate::headers::{insert_header, keys_unique, lemma_upsert, pairs_view, upsert};
use crate::text::{
    bytes_eq, bytes_eq_ignore_case, content_length_key, declared_length, eq_ignore_case, find_byte, find_byte_from,
    lemma_find_byte_bounds, lossy_text, parse_length, text_of, trim, trim_bytes,
};

verus! {

/// The request methods of HTTP/1.1.
#[derive(Clone, Copy, Debug, PartialEq, Eq, Structural)]
pub enum HttpMethod {
    Get,
    Head,
    Post,
    Put,
    Delete,
    Connect,
    Options,
    Trace,
    Patch,
}

/// The method that a request-line token names, by its ASCII bytes
/// (`GET` is 71, 69, 84); tokens are case-sensitive.
pub open spec fn method_named(t: Seq<u8>) -> Option<HttpMethod> {
    if t == seq![71u8, 69, 84] {
        Some(HttpMethod::Get)
    } else if t == seq![72u8, 69, 65, 68] {
        Some(HttpMethod::Head)
    } else if t == seq![80u8, 79, 83, 84] {
        Some(HttpMethod::Post)
    } else if t == seq![80u8, 85, 84] {
        Some(HttpMethod::Put)
    } else if t == seq![68u8, 69, 76, 69, 84, 69] {
        Some(HttpMethod::Delete)
    } else if t == seq![67u8, 79, 78, 78, 69, 67, 84] {
        Some(HttpMethod::Connect)
    } else if t == seq![79u8, 80, 84, 73, 79, 78, 83] {
        Some(HttpMethod::Options)
    } else if t == seq![84u8, 82, 65, 67, 69] {
        Some(HttpMethod::Trace)
    } else if t == seq![80u8, 65, 84, 67, 72] {
        Some(HttpMethod::Patch)
    } else {
        None
    }
}

impl HttpMethod {
    /// The method named by the token `t`, if any.
    pub fn from_token(t: &[u8]) -> (r: Option<HttpMethod>)
        ensures
            r == method_named(t@),
    {
        if bytes_eq(t, vec![71u8, 69, 84].as_slice()) {
            Some(HttpMethod::Get)
        } else if bytes_eq(t, vec![72u8, 69, 65, 68].as_slice()) {
            Some(HttpMethod::Head)
        } else if bytes_eq(t, vec![80u8, 79, 83, 84].as_slice()) {
            Some(HttpMethod::Post)
        } else if bytes_eq(t, vec![80u8, 85, 84].as_slice()) {
            Some(HttpMethod::Put)
        } else if bytes_eq(t, vec![68u8, 69, 76, 69, 84, 69].as_slice()) {
            Some(HttpMethod::Delete)
        } else if bytes_eq(t, vec![67u8, 79, 78, 78, 69, 67, 84].as_slice()) {
            Some(HttpMethod::Connect)
        } else if bytes_eq(t, vec![79u8, 80, 84, 73, 79, 78, 83].as_slice()) {
            Some(HttpMethod::Options)
        } else if bytes_eq(t, vec![84u8, 82, 65, 67, 69].as_slice()) {
            Some(HttpMethod::Trace)
        } else if bytes_eq(t, vec![80u8, 65, 84, 67, 72].as_slice()) {
            Some(HttpMethod::Patch)
        } else {
            None
        }
    }

    /// The method named by `s` (`"GET"`, `"POST"`, ...), if any.
    pub fn from_string(s: &str) -> (r: Option<HttpMethod>)
        ensures
            r == method_named(s.spec_bytes()),
    {
        HttpMethod::from_token(s.as_bytes())
    }
}

/// What a request holds, as mathematical values.
pub struct RequestModel {
    pub method: HttpMethod,
    pub path: Seq<char>,
    pub version: Seq<char>,
    pub headers: Seq<(Seq<char>, Seq<char>)>,
    pub body: Option<Seq<char>>,
}

/// One parsed request. Header names are kept as received and are unique;
/// a repeated name keeps its first position and its last value.
pub struct HttpRequest {
    pub method: HttpMethod,
    pub path: String,
    pub version: String,
    pub headers: Vec<(String, String)>,
    pub body: Option<String>,
}

pub open spec fn opt_text(b: Option<String>) -> Option<Seq<char>> {
    match b {
        Some(s) => Some(s@),
        None => None,
    }
}

impl View for HttpRequest {
    type V = RequestModel;

    open spec fn view(&self) -> RequestModel {
        RequestModel {
            method: self.method,
            path: self.path@,
            version: self.version@,
            headers: pairs_view(self.headers@),
            body: opt_text(self.body),
        }
    }
}

impl HttpRequest {
    fn new(
        method: HttpMethod,
        path: String,
        version: String,
        headers: Vec<(String, String)>,
        body: Option<String>,
    ) -> (r: Self)
        ensures
            r.method == method,
            r.path == path,
            r.version == version,
            r.headers == headers,
            r.body == body,
    {
        HttpRequest { method, path, version, headers, body }
    }
}

/// Staging value for a request, filled in by the parser.
pub struct HttpRequestBuilder {
    method: HttpMethod,
    path: String,
    version: String,
    headers: Vec<(String, String)>,
    body: Option<String>,
}

impl View for HttpRequestBuilder {
    type V = RequestModel;

    closed spec fn view(&self) -> RequestModel {
        RequestModel {
            method: self.method,
            path: self.path@,
            version: self.version@,
            headers: pairs_view(self.headers@),
            body: opt_text(self.body),
        }
    }
}

impl HttpRequestBuilder {
    /// An empty `GET` request: empty path and version, no headers, no body.
    pub fn new() -> (r: Self)
        ensures
            r@ == (RequestModel {
                method: HttpMethod::Get,
                path: Seq::empty(),
                version: Seq::empty(),
                headers: Seq::empty(),
                body: None,
            }),
    {
        let r = HttpRequestBuilder {
            method: HttpMethod::Get,
            path: String::new(),
            version: String::new(),
            headers: Vec::new(),
            body: None,
        };
        assert(r@.headers =~= Seq::empty());
        r
    }

    pub fn with_method(&mut self, method: HttpMethod)
        ensures
            final(self)@ == (RequestModel { method, ..old(self)@ }),
    {
        self.method = method;
    }

    pub fn with_path(&mut self, path: String)
        ensures
            final(self)@ == (RequestModel { path: path@, ..old(self)@ }),
    {
        self.path = path;
    }

    pub fn with_version(&mut self, version: String)
        ensures
            final(self)@ == (RequestModel { version: version@, ..old(self)@ }),
    {
        self.version = version;
    }

    /// Sets header `key` to `value`, overwriting an entry of the same name.
    pub fn with_header(&mut self, key: String, value: String)
        ensures
            final(self)@ == (RequestModel {
                headers: upsert(old(self)@.headers, key@, value@),
                ..old(self)@
            }),
    {
        insert_header(&mut self.headers, key, value);
    }

    pub fn with_body(&mut self, body: String)
        ensures
            final(self)@ == (RequestModel { body: Some(body@), ..old(self)@ }),
    {
        self.body = Some(body);
    }

    /// Finishes the request.
    pub fn build(self) -> (r: HttpRequest)
        ensures
            r@ == self@,
    {
        HttpRequest::new(self.method, self.path, self.version, self.headers, self.body)
    }
}

/// Why a request could not be read.
#[derive(Clone, Copy, Debug, PartialEq, Eq, Structural)]
pub enum ParseError {
    /// The request line has fewer than three space-separated tokens, or an unknown method.
    MalformedRequestLine,
    /// A header line holds no colon.
    MalformedHeader,
    /// The input ends before the request line, the blank line after the
    /// headers, or the declared body is complete.
    TruncatedRequest,
}

/// A line without its trailing carriage return, if it has one.
pub open spec fn strip_cr(l: Seq<u8>) -> Seq<u8> {
    if l.len() > 0 && l.last() == 13 {
        l.drop_last()
    } else {
        l
    }
}

/// A byte that separates request-line tokens: space or horizontal tab.
pub open spec fn is_sep(c: u8) -> bool {
    c == 32 || c == 9
}

/// First index at or after `i` that is not a separator (`s.len()` if none).
pub open spec fn skip_sep(s: Seq<u8>, i: int) -> int
    decreases s.len() - i,
{
    if i < 0 || i >= s.len() {
        s.len() as int
    } else if is_sep(s[i]) {
        skip_sep(s, i + 1)
    } else {
        i
    }
}

/// First separator at or after `i` (`s.len()` if none): where a token that
/// starts at `i` ends.
pub open spec fn token_end(s: Seq<u8>, i: int) -> int
    decreases s.len() - i,
{
    if i < 0 || i >= s.len() {
        s.len() as int
    } else if is_sep(s[i]) {
        i
    } else {
        token_end(s, i + 1)
    }
}

/// Method, path and version: the first three tokens of a request line split
/// on runs of spaces and tabs, each non-empty; `None` when the line holds
/// fewer than three. Tokens after the third are not read.
pub open spec fn request_line_parts(line: Seq<u8>) -> Option<(Seq<u8>, Seq<u8>, Seq<u8>)> {
    let a0 = skip_sep(line, 0);
    let e0 = token_end(line, a0);
    let a1 = skip_sep(line, e0);
    let e1 = token_end(line, a1);
    let a2 = skip_sep(line, e1);
    let e2 = token_end(line, a2);
    if a2 < line.len() {
        Some((line.subrange(a0, e0), line.subrange(a1, e1), line.subrange(a2, e2)))
    } else {
        None
    }
}

proof fn lemma_skip_sep(s: Seq<u8>, i: int)
    requires
        0 <= i <= s.len(),
    ensures
        i <= skip_sep(s, i) <= s.len(),
        skip_sep(s, i) < s.len() ==> !is_sep(s[skip_sep(s, i)]),
    decreases s.len() - i,
{
    if i < s.len() && is_sep(s[i]) {
        lemma_skip_sep(s, i + 1);
    }
}

proof fn lemma_token_end(s: Seq<u8>, i: int)
    requires
        0 <= i <= s.len(),
    ensures
        i <= token_end(s, i) <= s.len(),
        i < s.len() && !is_sep(s[i]) ==> i < token_end(s, i),
    decreases s.len() - i,
{
    if i < s.len() && !is_sep(s[i]) {
        lemma_token_end(s, i + 1);
    }
}

fn skip_sep_from(s: &[u8], from: usize) -> (r: usize)
    requires
        from <= s@.len(),
    ensures
        r == skip_sep(s@, from as int),
{
    let mut i: usize = from;
    while i < s.len() && (s[i] == 32 || s[i] == 9)
        invariant
            from <= i <= s@.len(),
            skip_sep(s@, i as int) == skip_sep(s@, from as int),
        decreases s@.len() - i,
    {
        i = i + 1;
    }
    i
}

fn token_end_from(s: &[u8], from: usize) -> (r: usize)
    requires
        from <= s@.len(),
    ensures
        r == token_end(s@, from as int),
{
    let mut i: usize = from;
    while i < s.len() && s[i] != 32 && s[i] != 9
        invariant
            from <= i <= s@.len(),
            token_end(s@, i as int) == token_end(s@, from as int),
        decreases s@.len() - i,
    {
        i = i + 1;
    }
    i
}

/// Reads header lines from `pos` on, into the table `hs`, with `n` the body
/// length declared so far. On success: the table, the declared body length
/// (from the last `Content-Length` header, case-insensitive; zero if none),
/// and the index just past the blank line.
pub open spec fn scan_headers(s: Seq<u8>, pos: int, hs: Seq<(Seq<char>, Seq<char>)>, n: nat) -> Result<
    (Seq<(Seq<char>, Seq<char>)>, nat, int),
    ParseError,
>
    decreases s.len() - pos,
{
    let e = find_byte(s, 10, pos);
    if pos < 0 || e < pos || e >= s.len() {
        Err(ParseError::TruncatedRequest)
    } else {
        let line = strip_cr(s.subrange(pos, e));
        if line.len() == 0 {
            Ok((hs, n, e + 1))
        } else {
            let c = find_byte(line, 58, 0);
            if c >= line.len() {
                Err(ParseError::MalformedHeader)
            } else {
                let k = trim(line.subrange(0, c));
                let v = trim(line.subrange(c + 1, line.len() as int));
                let n2 = if eq_ignore_case(k, content_length_key()) {
                    declared_length(v)
                } else {
                    n
                };
                scan_headers(s, e + 1, upsert(hs, lossy_text(k), lossy_text(v)), n2)
            }
        }
    }
}

/// The request at the front of `s`, with the number of bytes it takes up.
pub open spec fn parse_spec(s: Seq<u8>) -> Result<(RequestModel, int), ParseError> {
    let e = find_byte(s, 10, 0);
    if e >= s.len() {
        Err(ParseError::TruncatedRequest)
    } else {
        match request_line_parts(strip_cr(s.subrange(0, e))) {
            None => Err(ParseError::MalformedRequestLine),
            Some(parts) => match method_named(parts.0) {
                None => Err(ParseError::MalformedRequestLine),
                Some(method) => match scan_headers(s, e + 1, Seq::empty(), 0) {
                    Err(x) => Err(x),
                    Ok(scan) => {
                        let start = scan.2;
                        let n = scan.1;
                        if start + n > s.len() {
                            Err(ParseError::TruncatedRequest)
                        } else {
                            Ok(
                                (
                                    RequestModel {
                                        method,
                                        path: lossy_text(parts.1),
                                        version: lossy_text(parts.2),
                                        headers: scan.0,
                                        body: if n > 0 {
                                            Some(lossy_text(s.subrange(start, start + n)))
                                        } else {
                                            None
                                        },
                                    },
                                    start + n,
                                ),
                            )
                        }
                    },
                },
            },
        }
    }
}

fn strip_cr_bytes(l: &[u8]) -> (r: &[u8])
    ensures
        r@ == strip_cr(l@),
{
    if l.len() > 0 && l[l.len() - 1] == 13 {
        let r = slice_subrange(l, 0, l.len() - 1);
        assert(r@ =~= l@.drop_last());
        r
    } else {
        l
    }
}

/// Reads the header block of `input` from `pos` into `builder`; returns the
/// declared body length and the index just past the blank line.
fn read_headers(input: &[u8], pos: usize, builder: &mut HttpRequestBuilder) -> (r: Result<
    (usize, usize),
    ParseError,
>)
    requires
        pos <= input@.len(),
    ensures
        match (r, scan_headers(input@, pos as int, old(builder)@.headers, 0)) {
            (Ok((n, start)), Ok(scan)) => {
                &&& final(builder)@ == (RequestModel { headers: scan.0, ..old(builder)@ })
                &&& n as nat == scan.1
                &&& start as int == scan.2
                &&& start <= input@.len()
            },
            (Err(x), Err(y)) => x == y,
            _ => false,
        },
{
    let ghost orig = old(builder)@;
    let mut p: usize = pos;
    let mut n: usize = 0;
    let key = vec![99u8, 111, 110, 116, 101, 110, 116, 45, 108, 101, 110, 103, 116, 104];
    assert(key@ =~= content_length_key());
    while p <= input.len()
        invariant
            pos <= p <= input@.len(),
            orig == old(builder)@,
            builder@ == (RequestModel { headers: builder@.headers, ..orig }),
            key@ == content_length_key(),
            scan_headers(input@, p as int, builder@.headers, n as nat) == scan_headers(
                input@,
                pos as int,
                orig.headers,
                0,
            ),
        decreases input@.len() - p,
    {
        let e = find_byte_from(input, 10, p);
        proof {
            lemma_find_byte_bounds(input@, 10, p as int);
        }
        if e >= input.len() {
            return Err(ParseError::TruncatedRequest);
        }
        let line = strip_cr_bytes(slice_subrange(input, p, e));
        if line.len() == 0 {
            return Ok((n, e + 1));
        }
        let c = find_byte_from(line, 58, 0);
        proof {
            lemma_find_byte_bounds(line@, 58, 0);
        }
        if c >= line.len() {
            return Err(ParseError::MalformedHeader);
        }
        let k = trim_bytes(slice_subrange(line, 0, c));
        let v = trim_bytes(slice_subrange(line, c + 1, line.len()));
        if bytes_eq_ignore_case(k, key.as_slice()) {
            n = parse_length(v);
        }
        builder.with_header(text_of(k), text_of(v));
        p = e + 1;
    }
    Err(ParseError::TruncatedRequest)
}

/// Splits a request line into its first three tokens.
fn split_request_line(line: &[u8]) -> (r: Option<(&[u8], &[u8], &[u8])>)
    ensures
        match (r, request_line_parts(line@)) {
            (Some(x), Some(y)) => x.0@ == y.0 && x.1@ == y.1 && x.2@ == y.2,
            (None, None) => true,
            _ => false,
        },
{
    let a0 = skip_sep_from(line, 0);
    proof {
        lemma_skip_sep(line@, 0);
        lemma_token_end(line@, a0 as int);
    }
    let e0 = token_end_from(line, a0);
    proof {
        lemma_skip_sep(line@, e0 as int);
    }
    let a1 = skip_sep_from(line, e0);
    proof {
        lemma_token_end(line@, a1 as int);
    }
    let e1 = token_end_from(line, a1);
    proof {
        lemma_skip_sep(line@, e1 as int);
    }
    let a2 = skip_sep_from(line, e1);
    proof {
        lemma_token_end(line@, a2 as int);
    }
    if a2 >= line.len() {
        return None;
    }
    let e2 = token_end_from(line, a2);
    Some((slice_subrange(line, a0, e0), slice_subrange(line, a1, e1), slice_subrange(line, a2, e2)))
}

/// Reads one request off the front of `input`. On success returns the
/// request and the number of bytes it took: the head through its blank line,
/// then exactly the declared body length, whatever follows. The body is
/// present exactly when a positive length was declared. `TruncatedRequest`
/// means the input stops short of a whole request.
pub fn parse_request(input: &[u8]) -> (r: Result<(HttpRequest, usize), ParseError>)
    ensures
        match r {
            Ok((req, k)) => parse_spec(input@) == Ok::<(RequestModel, int), ParseError>(
                (req@, k as int),
            ),
            Err(x) => parse_spec(input@) == Err::<(RequestModel, int), ParseError>(x),
        },
{
    let e = find_byte_from(input, 10, 0);
    proof {
        lemma_find_byte_bounds(input@, 10, 0);
    }
    if e >= input.len() {
        return Err(ParseError::TruncatedRequest);
    }
    let line = strip_cr_bytes(slice_subrange(input, 0, e));
    let (m, p, v) = match split_request_line(line) {
        Some(parts) => parts,
        None => {
            return Err(ParseError::MalformedRequestLine);
        },
    };
    let method = match HttpMethod::from_token(m) {
        Some(method) => method,
        None => {
            return Err(ParseError::MalformedRequestLine);
        },
    };
    let mut builder = HttpRequestBuilder::new();
    builder.with_method(method);
    builder.with_path(text_of(p));
    builder.with_version(text_of(v));
    let (n, start) = match read_headers(input, e + 1, &mut builder) {
        Ok(x) => x,
        Err(x) => {
            return Err(x);
        },
    };
    if n > input.len() - start {
        return Err(ParseError::TruncatedRequest);
    }
    if n > 0 {
        builder.with_body(text_of(slice_subrange(input, start, start + n)));
    }
    let req = builder.build();
    proof {
        assert(req@.headers == pairs_view(req.headers@));
    }
    Ok((req, start + n))
}

proof fn lemma_find_byte_extend(s: Seq<u8>, x: Seq<u8>, b: u8, from: int)
    requires
        0 <= from <= s.len(),
        find_byte(s, b, from) < s.len(),
    ensures
        find_byte(s + x, b, from) == find_byte(s, b, from),
    decreases s.len() - from,
{
    if s[from] != b {
        lemma_find_byte_extend(s, x, b, from + 1);
    }
}

proof fn lemma_scan_extend(
    s: Seq<u8>,
    x: Seq<u8>,
    pos: int,
    hs: Seq<(Seq<char>, Seq<char>)>,
    n: nat,
)
    requires
        scan_headers(s, pos, hs, n) is Ok,
    ensures
        scan_headers(s + x, pos, hs, n) == scan_headers(s, pos, hs, n),
        scan_headers(s, pos, hs, n)->Ok_0.2 <= s.len(),
        scan_headers(s, pos, hs, n)->Ok_0.2 > pos,
    decreases s.len() - pos,
{
    let e = find_byte(s, 10, pos);
    lemma_find_byte_extend(s, x, 10, pos);
    assert((s + x).subrange(pos, e) =~= s.subrange(pos, e));
    let line = strip_cr(s.subrange(pos, e));
    if line.len() != 0 {
        let c = find_byte(line, 58, 0);
        let k = trim(line.subrange(0, c));
        let v = trim(line.subrange(c + 1, line.len() as int));
        let n2 = if eq_ignore_case(k, content_length_key()) {
            declared_length(v)
        } else {
            n
        };
        lemma_scan_extend(s, x, e + 1, upsert(hs, lossy_text(k), lossy_text(v)), n2);
    }
}

/// A request is read the same whatever bytes follow it on the stream: the
/// parser takes the head and exactly the declared body length, never more.
pub proof fn law_no_over_read(s: Seq<u8>, extra: Seq<u8>)
    requires
        parse_spec(s) is Ok,
    ensures
        parse_spec(s + extra) == parse_spec(s),
        parse_spec(s)->Ok_0.1 <= s.len(),
{
    let e = find_byte(s, 10, 0);
    lemma_find_byte_bounds(s, 10, 0);
    lemma_find_byte_extend(s, extra, 10, 0);
    assert((s + extra).subrange(0, e) =~= s.subrange(0, e));
    lemma_scan_extend(s, extra, e + 1, Seq::empty(), 0);
    let scan = scan_headers(s, e + 1, Seq::empty(), 0)->Ok_0;
    assert((s + extra).subrange(scan.2, scan.2 + scan.1) =~= s.subrange(scan.2, scan.2 + scan.1));
}

/// The declared body length of a request whose header block is complete:
/// the value of its last `Content-Length` header, zero when there is none.
pub open spec fn declared_body_length(s: Seq<u8>) -> nat {
    scan_headers(s, find_byte(s, 10, 0) + 1, Seq::empty(), 0)->Ok_0.1
}

/// A request that declares no positive body length (no `Content-Length`, a
/// zero, or a value that is not a number) has no body, not an empty one, and
/// ends right after its blank line; a request that declares one has a body.
pub proof fn law_body_presence(s: Seq<u8>)
    requires
        parse_spec(s) is Ok,
    ensures
        (parse_spec(s)->Ok_0.0.body is None) <==> declared_body_length(s) == 0,
        declared_body_length(s) == 0 ==> parse_spec(s)->Ok_0.1 == scan_headers(
            s,
            find_byte(s, 10, 0) + 1,
            Seq::empty(),
            0,
        )->Ok_0.2,
{
}

/// Value of the last header among the first `i` entries whose name matches
/// `name` (its UTF-8 bytes, up to ASCII case), as the parser's
/// `Content-Length` rule takes the last occurrence.
pub open spec fn header_before(hs: Seq<(Seq<char>, Seq<char>)>, name: Seq<u8>, i: int) -> Option<
    Seq<char>,
>
    decreases i,
{
    if i <= 0 || i > hs.len() {
        None
    } else if eq_ignore_case(encode_utf8(hs[i - 1].0), name) {
        Some(hs[i - 1].1)
    } else {
        header_before(hs, name, i - 1)
    }
}

/// The value of the header called `name` (ASCII case ignored); of several
/// that match, the last.
pub open spec fn header_value(hs: Seq<(Seq<char>, Seq<char>)>, name: Seq<u8>) -> Option<Seq<char>> {
    header_before(hs, name, hs.len() as int)
}

impl HttpRequest {
    /// The value of the header called `name`, matched without regard to ASCII
    /// case; of several that match, the last.
    pub fn header(&self, name: &str) -> (r: Option<String>)
        ensures
            opt_text(r) == header_value(self@.headers, name.spec_bytes()),
    {
        let mut i: usize = self.headers.len();
        while i > 0
            invariant
                0 <= i <= self.headers@.len(),
                header_before(self@.headers, name.spec_bytes(), i as int) == header_value(
                    self@.headers,
                    name.spec_bytes(),
                ),
            decreases i,
        {
            if bytes_eq_ignore_case(self.headers[i - 1].0.as_str().as_bytes(), name.as_bytes()) {
                return Some(self.headers[i - 1].1.clone());
            }
            i = i - 1;
        }
        None
    }
}

proof fn lemma_scan_unique(s: Seq<u8>, pos: int, hs: Seq<(Seq<char>, Seq<char>)>, n: nat)
    requires
        keys_unique(hs),
        scan_headers(s, pos, hs, n) is Ok,
    ensures
        keys_unique(scan_headers(s, pos, hs, n)->Ok_0.0),
    decreases s.len() - pos,
{
    let e = find_byte(s, 10, pos);
    let line = strip_cr(s.subrange(pos, e));
    if line.len() != 0 {
        let c = find_byte(line, 58, 0);
        let k = trim(line.subrange(0, c));
        let v = trim(line.subrange(c + 1, line.len() as int));
        let n2 = if eq_ignore_case(k, content_length_key()) {
            declared_length(v)
        } else {
            n
        };
        lemma_upsert(hs, lossy_text(k), lossy_text(v));
        lemma_scan_unique(s, e + 1, upsert(hs, lossy_text(k), lossy_text(v)), n2);
    }
}

/// The headers of a parsed request form a mapping: no name occurs twice.
pub proof fn law_parsed_headers_unique(s: Seq<u8>)
    requires
        parse_spec(s) is Ok,
    ensures
        keys_unique(parse_spec(s)->Ok_0.0.headers),
{
    lemma_scan_unique(s, find_byte(s, 10, 0) + 1, Seq::empty(), 0);
}

} // verus!
