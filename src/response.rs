//! HTTP responses: a builder that applies defaults and keeps `Content-Length`
//! in step with the body, and serialisation to wire bytes.

use itertools::Itertools;
use vstd::prelude::*;
use vstd::string::StrSliceExecFns;
use vstd::utf8::{encode_scalar, encode_utf8, is_ascii_chars};

use crate::headers::{
    has_entry, insert_header, key_index, keys_unique, lemma_key_index, lemma_upsert, pairs_view,
    upsert,
};
use crate::text::{
    decimal, decimal_text, is_length_header, is_length_name, lemma_encode_utf8_concat,
};

verus! {

broadcast use vstd::utf8::is_ascii_chars_encode_utf8;

/// What a response or a response builder holds, as mathematical values.
pub struct ResponseModel {
    pub version: Seq<char>,
    pub status_code: nat,
    pub status_message: Seq<char>,
    pub headers: Seq<(Seq<char>, Seq<char>)>,
    pub body: Option<Seq<char>>,
}

pub open spec fn crlf() -> Seq<char> {
    seq!['\r', '\n']
}

pub open spec fn colon_space() -> Seq<char> {
    seq![':', ' ']
}

pub open spec fn content_length_name() -> Seq<char> {
    seq!['C', 'o', 'n', 't', 'e', 'n', 't', '-', 'L', 'e', 'n', 'g', 't', 'h']
}

/// `items` with `sep` between each two neighbours.
pub open spec fn joined(items: Seq<Seq<char>>, sep: Seq<char>) -> Seq<char>
    decreases items.len(),
{
    if items.len() == 0 {
        Seq::empty()
    } else if items.len() == 1 {
        items[0]
    } else {
        joined(items.drop_last(), sep) + sep + items.last()
    }
}

/// One header as it stands on the wire: `<name>: <value>`.
pub open spec fn header_line(p: (Seq<char>, Seq<char>)) -> Seq<char> {
    p.0 + colon_space() + p.1
}

pub open spec fn header_lines(hs: Seq<(Seq<char>, Seq<char>)>) -> Seq<Seq<char>> {
    hs.map_values(|p: (Seq<char>, Seq<char>)| header_line(p))
}

pub open spec fn body_or_empty(b: Option<Seq<char>>) -> Seq<char> {
    match b {
        Some(s) => s,
        None => Seq::empty(),
    }
}

/// Everything up to and including the blank line that ends the header block.
pub open spec fn head_text(r: ResponseModel) -> Seq<char> {
    r.version + seq![' '] + decimal(r.status_code) + seq![' '] + r.status_message + crlf()
        + joined(header_lines(r.headers), crlf()) + crlf() + crlf()
}

/// The response as text: status line, headers, blank line, body.
pub open spec fn response_text(r: ResponseModel) -> Seq<char> {
    head_text(r) + body_or_empty(r.body)
}

/// The response's wire bytes.
pub open spec fn wire(r: ResponseModel) -> Seq<u8> {
    encode_utf8(response_text(r))
}

/// The text of each string.
pub open spec fn texts(v: Seq<String>) -> Seq<Seq<char>> {
    v.map_values(|s: String| s@)
}

/// Relies on `Itertools::join`: the items' text with `sep` between each two.
#[verifier::external_body]
fn join_with(items: &Vec<String>, sep: &str) -> (r: String)
    ensures
        r@ == joined(texts(items@), sep@),
{
    items.iter().join(sep)
}

/// A finished response.
pub struct HttpResponse {
    version: String,
    status_code: usize,
    status_message: String,
    headers: Vec<(String, String)>,
    body: Option<String>,
}

impl View for HttpResponse {
    type V = ResponseModel;

    closed spec fn view(&self) -> ResponseModel {
        ResponseModel {
            version: self.version@,
            status_code: self.status_code as nat,
            status_message: self.status_message@,
            headers: pairs_view(self.headers@),
            body: match self.body {
                Some(b) => Some(b@),
                None => None,
            },
        }
    }
}

impl HttpResponse {
    fn new(
        version: String,
        status_code: usize,
        status_message: String,
        headers: Vec<(String, String)>,
        body: Option<String>,
    ) -> (r: Self)
        ensures
            r.version == version,
            r.status_code == status_code,
            r.status_message == status_message,
            r.headers == headers,
            r.body == body,
    {
        HttpResponse { version, status_code, status_message, headers, body }
    }

    /// Serialises the response:
    /// `<version> <code> <message>\r\n<headers joined by \r\n>\r\n\r\n<body>`.
    pub fn as_bytes(&self) -> (r: Vec<u8>)
        ensures
            r@ == wire(self@),
    {
        let mut lines: Vec<String> = Vec::new();
        let mut i: usize = 0;
        proof {
            reveal_strlit(": ");
        }
        while i < self.headers.len()
            invariant
                0 <= i <= self.headers@.len(),
                lines@.len() == i,
                texts(lines@) =~= header_lines(
                    pairs_view(self.headers@),
                ).subrange(0, i as int),
                ": "@ == colon_space(),
            decreases self.headers@.len() - i,
        {
            let mut line = self.headers[i].0.clone();
            line.append(": ");
            line.append(self.headers[i].1.as_str());
            proof {
                assert(line@ == header_line(pairs_view(self.headers@)[i as int]));
            }
            let ghost before = lines@;
            lines.push(line);
            proof {
                assert(lines@ == before.push(line));
                assert(texts(lines@)[i as int] == line@);
                assert(forall|j: int| 0 <= j < i ==> texts(lines@)[j] == texts(before)[j]);
                assert(header_lines(pairs_view(self.headers@))[i as int] == header_line(
                    pairs_view(self.headers@)[i as int],
                ));
                assert(texts(lines@) =~= header_lines(
                    pairs_view(self.headers@),
                ).subrange(0, i + 1));
            }
            i = i + 1;
        }
        assert(header_lines(pairs_view(self.headers@)).subrange(0, i as int) =~= header_lines(
            pairs_view(self.headers@),
        ));
        assert(texts(lines@) == header_lines(pairs_view(self.headers@)));
        let joined_headers = join_with(&lines, "\r\n");
        let code = decimal_text(self.status_code);
        let mut text = self.version.clone();
        text.append(" ");
        text.append(code.as_str());
        text.append(" ");
        text.append(self.status_message.as_str());
        text.append("\r\n");
        text.append(joined_headers.as_str());
        text.append("\r\n\r\n");
        match &self.body {
            Some(b) => text.append(b.as_str()),
            None => {},
        }
        proof {
            reveal_strlit(" ");
            reveal_strlit("\r\n");
            reveal_strlit("\r\n\r\n");
            assert("\r\n"@ =~= crlf());
            assert(joined_headers@ == joined(header_lines(self@.headers), crlf()));
            assert(code@ == decimal(self@.status_code));
            assert(text@ =~= response_text(self@));
        }
        text.as_str().as_bytes_vec()
    }
}

/// Staging value for a response; each `with_` step hands back the updated builder.
pub struct HttpResponseBuilder {
    version: String,
    status_code: usize,
    status_message: String,
    headers: Vec<(String, String)>,
    body: Option<String>,
}

impl View for HttpResponseBuilder {
    type V = ResponseModel;

    closed spec fn view(&self) -> ResponseModel {
        ResponseModel {
            version: self.version@,
            status_code: self.status_code as nat,
            status_message: self.status_message@,
            headers: pairs_view(self.headers@),
            body: match self.body {
                Some(b) => Some(b@),
                None => None,
            },
        }
    }
}

/// The builder's starting state: `HTTP/1.1`, `200 OK`, no headers, no body.
pub open spec fn default_response() -> ResponseModel {
    ResponseModel {
        version: seq!['H', 'T', 'T', 'P', '/', '1', '.', '1'],
        status_code: 200,
        status_message: seq!['O', 'K'],
        headers: Seq::empty(),
        body: None,
    }
}

/// The model after `with_status(code, message)`.
pub open spec fn set_status(r: ResponseModel, code: nat, message: Seq<char>) -> ResponseModel {
    ResponseModel { status_code: code, status_message: message, ..r }
}

/// `hs` without its `Content-Length` entries (any letter case), order kept.
pub open spec fn without_length(hs: Seq<(Seq<char>, Seq<char>)>) -> Seq<(Seq<char>, Seq<char>)>
    decreases hs.len(),
{
    if hs.len() == 0 {
        Seq::empty()
    } else if is_length_name(hs.last().0) {
        without_length(hs.drop_last())
    } else {
        without_length(hs.drop_last()).push(hs.last())
    }
}

/// The model after `with_header(k, v)`. Once a body is set, `Content-Length`
/// (any letter case) belongs to it and the call changes nothing.
pub open spec fn set_header(r: ResponseModel, k: Seq<char>, v: Seq<char>) -> ResponseModel {
    if r.body is Some && is_length_name(k) {
        r
    } else {
        ResponseModel { headers: upsert(r.headers, k, v), ..r }
    }
}

/// The model after `with_body(b)`: the body, every earlier `Content-Length`
/// header (any letter case) dropped, and `Content-Length` set to the body's
/// UTF-8 length appended.
pub open spec fn set_body(r: ResponseModel, b: Seq<char>) -> ResponseModel {
    ResponseModel {
        headers: without_length(r.headers).push(
            (content_length_name(), decimal(encode_utf8(b).len())),
        ),
        body: Some(b),
        ..r
    }
}

/// When a body is set, the headers hold `Content-Length` with its UTF-8
/// length, and no other header is named `Content-Length` in any letter case.
pub open spec fn length_matches(r: ResponseModel) -> bool {
    match r.body {
        None => true,
        Some(b) => {
            &&& has_entry(r.headers, content_length_name(), decimal(encode_utf8(b).len()))
            &&& forall|i: int|
                0 <= i < r.headers.len() && is_length_name(#[trigger] r.headers[i].0)
                    ==> r.headers[i] == (content_length_name(), decimal(encode_utf8(b).len()))
        }
    }
}

/// What every builder and every built response satisfies: unique header
/// names, and a `Content-Length` that matches the body.
pub open spec fn well_formed(r: ResponseModel) -> bool {
    keys_unique(r.headers) && length_matches(r)
}

/// `Content-Length` is itself a `Content-Length` name.
pub proof fn lemma_length_name()
    ensures
        is_length_name(content_length_name()),
{
    let cl = content_length_name();
    assert(is_ascii_chars(cl));
    let e = encode_utf8(cl);
    assert(e =~= seq![67u8, 111, 110, 116, 101, 110, 116, 45, 76, 101, 110, 103, 116, 104]);
}

/// Dropping the `Content-Length` entries keeps names unique, leaves none of
/// them, and keeps only entries of `hs`.
pub proof fn lemma_without_length(hs: Seq<(Seq<char>, Seq<char>)>)
    requires
        keys_unique(hs),
    ensures
        keys_unique(without_length(hs)),
        forall|j: int|
            0 <= j < without_length(hs).len() ==> !is_length_name(
                (#[trigger] without_length(hs)[j]).0,
            ),
        forall|j: int|
            0 <= j < without_length(hs).len() ==> exists|i: int|
                0 <= i < hs.len() && hs[i] == #[trigger] without_length(hs)[j],
    decreases hs.len(),
{
    if hs.len() > 0 {
        let front = hs.drop_last();
        assert(keys_unique(front));
        lemma_without_length(front);
        let sub = without_length(front);
        if !is_length_name(hs.last().0) {
            let w = sub.push(hs.last());
            assert forall|j: int| 0 <= j < sub.len() implies w[j].0 != hs.last().0 by {
                let i = choose|i: int| 0 <= i < front.len() && front[i] == sub[j];
                assert(hs[i] == w[j]);
            }
            assert forall|j: int| 0 <= j < w.len() implies exists|i: int|
                0 <= i < hs.len() && hs[i] == #[trigger] w[j] by {
                if j < sub.len() {
                    let i = choose|i: int| 0 <= i < front.len() && front[i] == sub[j];
                    assert(hs[i] == w[j]);
                } else {
                    assert(hs[hs.len() - 1] == w[j]);
                }
            }
        } else {
            assert forall|j: int| 0 <= j < sub.len() implies exists|i: int|
                0 <= i < hs.len() && hs[i] == #[trigger] sub[j] by {
                let i = choose|i: int| 0 <= i < front.len() && front[i] == sub[j];
                assert(hs[i] == sub[j]);
            }
        }
    }
}

/// Setting a body keeps the builder well formed.
pub proof fn lemma_set_body(r: ResponseModel, b: Seq<char>)
    requires
        keys_unique(r.headers),
    ensures
        well_formed(set_body(r, b)),
{
    lemma_without_length(r.headers);
    lemma_length_name();
    let w = without_length(r.headers);
    let entry = (content_length_name(), decimal(encode_utf8(b).len()));
    let hs = w.push(entry);
    assert(hs[w.len() as int] == entry);
    assert forall|i: int, j: int|
        0 <= i < hs.len() && 0 <= j < hs.len() && i != j implies hs[i].0 != hs[j].0 by {
        if i == w.len() {
            assert(!is_length_name(w[j].0));
        } else if j == w.len() {
            assert(!is_length_name(w[i].0));
        }
    }
    assert forall|i: int| 0 <= i < hs.len() && is_length_name(#[trigger] hs[i].0) implies hs[i]
        == entry by {
        if i < w.len() {
            assert(!is_length_name(w[i].0));
        }
    }
}

/// Setting a header keeps the builder well formed.
pub proof fn lemma_set_header(r: ResponseModel, k: Seq<char>, v: Seq<char>)
    requires
        well_formed(r),
    ensures
        well_formed(set_header(r, k, v)),
{
    if !(r.body is Some && is_length_name(k)) {
        lemma_upsert(r.headers, k, v);
        lemma_key_index(r.headers, k, 0);
        lemma_length_name();
        let i = key_index(r.headers, k, 0);
        let hs = upsert(r.headers, k, v);
        if r.body is Some {
            let b = r.body->Some_0;
            let entry = (content_length_name(), decimal(encode_utf8(b).len()));
            let j = choose|j: int| 0 <= j < r.headers.len() && r.headers[j] == entry;
            assert(is_length_name(r.headers[j].0));
            assert(hs[j] == entry);
            assert forall|m: int| 0 <= m < hs.len() && is_length_name(#[trigger] hs[m].0) implies hs[m]
                == entry by {
                if m < r.headers.len() && m != i {
                    assert(hs[m] == r.headers[m]);
                }
            }
        }
    }
}

impl HttpResponseBuilder {
    #[verifier::type_invariant]
    spec fn inv(self) -> bool {
        well_formed(self@)
    }

    pub fn new() -> (r: Self)
        ensures
            r@ == default_response(),
            well_formed(r@),
    {
        let version = String::from_str("HTTP/1.1");
        let message = String::from_str("OK");
        proof {
            reveal_strlit("HTTP/1.1");
            reveal_strlit("OK");
        }
        let headers: Vec<(String, String)> = Vec::new();
        assert(pairs_view(headers@) =~= Seq::empty());
        let r = HttpResponseBuilder {
            version,
            status_code: 200,
            status_message: message,
            headers,
            body: None,
        };
        assert(r@.version =~= default_response().version);
        assert(r@.status_message =~= default_response().status_message);
        r
    }

    /// Replaces code and message together.
    pub fn with_status(self, code: usize, message: String) -> (r: Self)
        ensures
            r@ == set_status(self@, code as nat, message@),
            well_formed(r@),
    {
        proof {
            use_type_invariant(&self);
        }
        let HttpResponseBuilder { version, status_code: _, status_message: _, headers, body } = self;
        HttpResponseBuilder { version, status_code: code, status_message: message, headers, body }
    }

    /// Sets header `key` to `value`, overwriting an entry of the same name.
    /// Once a body is set, `Content-Length` in any letter case is left as the
    /// body made it.
    pub fn with_header(self, key: String, value: String) -> (r: Self)
        ensures
            r@ == set_header(self@, key@, value@),
            well_formed(r@),
    {
        proof {
            use_type_invariant(&self);
            lemma_set_header(self@, key@, value@);
        }
        if self.body.is_some() && is_length_header(&key) {
            return self;
        }
        let HttpResponseBuilder { version, status_code, status_message, mut headers, body } = self;
        insert_header(&mut headers, key, value);
        HttpResponseBuilder { version, status_code, status_message, headers, body }
    }

    /// Sets the body, drops any earlier `Content-Length` header, and adds
    /// `Content-Length` holding the body's length in bytes.
    pub fn with_body(self, body: String) -> (r: Self)
        ensures
            r@ == set_body(self@, body@),
            well_formed(r@),
    {
        proof {
            use_type_invariant(&self);
            lemma_set_body(self@, body@);
        }
        let ghost start = self@;
        let HttpResponseBuilder { version, status_code, status_message, headers, body: _ } = self;
        let mut kept: Vec<(String, String)> = Vec::new();
        let mut i: usize = 0;
        while i < headers.len()
            invariant
                0 <= i <= headers@.len(),
                pairs_view(headers@) == start.headers,
                pairs_view(kept@) == without_length(pairs_view(headers@).subrange(0, i as int)),
            decreases headers@.len() - i,
        {
            let ghost pv = pairs_view(headers@);
            proof {
                assert(pv.subrange(0, i + 1).drop_last() =~= pv.subrange(0, i as int));
                assert(pv.subrange(0, i + 1).last() == pv[i as int]);
            }
            if !is_length_header(&headers[i].0) {
                let ghost before = kept@;
                kept.push((headers[i].0.clone(), headers[i].1.clone()));
                proof {
                    assert(pairs_view(kept@) =~= pairs_view(before).push(pv[i as int]));
                }
            }
            i = i + 1;
        }
        proof {
            assert(pairs_view(headers@).subrange(0, i as int) =~= pairs_view(headers@));
        }
        let n = body.as_str().as_bytes().len();
        let name = String::from_str("Content-Length");
        proof {
            reveal_strlit("Content-Length");
            assert(name@ =~= content_length_name());
        }
        let ghost before = kept@;
        kept.push((name, decimal_text(n)));
        proof {
            assert(pairs_view(kept@) =~= pairs_view(before).push(
                (content_length_name(), decimal(encode_utf8(body@).len())),
            ));
        }
        HttpResponseBuilder { version, status_code, status_message, headers: kept, body: Some(body) }
    }

    /// Finishes the response. Its headers have unique names, and when a body
    /// is set exactly one of them is `Content-Length` (in any letter case),
    /// holding the body's length in bytes.
    pub fn build(self) -> (r: HttpResponse)
        ensures
            r@ == self@,
            well_formed(r@),
    {
        proof {
            use_type_invariant(&self);
        }
        let HttpResponseBuilder { version, status_code, status_message, headers, body } = self;
        HttpResponse::new(version, status_code, status_message, headers, body)
    }
}

/// Setting a body and serialising: the wire bytes end with the body's UTF-8
/// bytes, preceded directly by the blank line `\r\n\r\n`; the headers stay
/// unique by name and hold exactly one `Content-Length` (in any letter case),
/// set to that byte count.
pub proof fn law_body_framing(start: ResponseModel, b: Seq<char>)
    requires
        keys_unique(start.headers),
    ensures
        ({
            let r = set_body(start, b);
            let w = wire(r);
            let n = encode_utf8(b).len() as int;
            &&& well_formed(r)
            &&& has_entry(r.headers, content_length_name(), decimal(n as nat))
            &&& w.len() >= n + 4
            &&& w.subrange(w.len() - n, w.len() as int) == encode_utf8(b)
            &&& w.subrange(w.len() - n - 4, w.len() - n) == seq![13u8, 10u8, 13u8, 10u8]
        }),
{
    let r = set_body(start, b);
    lemma_set_body(start, b);
    let front = r.version + seq![' '] + decimal(r.status_code) + seq![' '] + r.status_message
        + crlf() + joined(header_lines(r.headers), crlf());
    let blank = crlf() + crlf();
    assert(head_text(r) =~= front + blank);
    assert(response_text(r) == (front + blank) + b);
    lemma_encode_utf8_concat(front + blank, b);
    lemma_encode_utf8_concat(front, blank);
    assert(blank =~= seq!['\r', '\n', '\r', '\n']);
    lemma_encode_blank_line();
    let w = wire(r);
    let n = encode_utf8(b).len() as int;
    let ef = encode_utf8(front);
    assert(w =~= ef + seq![13u8, 10u8, 13u8, 10u8] + encode_utf8(b));
    assert(w.subrange(w.len() - n, w.len() as int) =~= encode_utf8(b));
    assert(w.subrange(w.len() - n - 4, w.len() - n) =~= seq![13u8, 10u8, 13u8, 10u8]);
}

proof fn lemma_encode_blank_line()
    ensures
        encode_utf8(seq!['\r', '\n', '\r', '\n']) == seq![13u8, 10u8, 13u8, 10u8],
{
    let cs = seq!['\r', '\n', '\r', '\n'];
    assert('\r' as u32 == 13u32);
    assert('\n' as u32 == 10u32);
    assert((13u32 & 0x7Fu32) == 13u32) by (bit_vector);
    assert((10u32 & 0x7Fu32) == 10u32) by (bit_vector);
    assert(encode_scalar('\r' as u32) =~= seq![13u8]);
    assert(encode_scalar('\n' as u32) =~= seq![10u8]);
    reveal_with_fuel(encode_utf8, 5);
    assert(cs.drop_first() =~= seq!['\n', '\r', '\n']);
    assert(cs.drop_first().drop_first() =~= seq!['\r', '\n']);
    assert(cs.drop_first().drop_first().drop_first() =~= seq!['\n']);
    assert(cs.drop_first().drop_first().drop_first().drop_first() =~= Seq::<char>::empty());
    assert(encode_utf8(cs) =~= seq![13u8, 10u8, 13u8, 10u8]);
}

/// Serialising depends on the response's contents alone: equal responses
/// give identical bytes, however often they are serialised.
pub proof fn law_serialise_deterministic(a: ResponseModel, b: ResponseModel)
    requires
        a == b,
    ensures
        wire(a) == wire(b),
{
}

} // verus!
