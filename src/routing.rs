//! Routing: which response a parsed request gets. Reading a file for the
//! `/files/` route is left to the caller, which hands back what it read.

use vstd::prelude::*;
use vstd::string::StringSliceAdditionalSpecFns;
use vstd::slice::slice_subrange;
use vstd::utf8::{
    decode_utf8, encode_utf8, is_char_boundary, length_of_first_scalar, pop_first_scalar, valid_utf8,
};

use crate::request::{header_value, opt_text, HttpRequest};
use crate::text::bytes_eq;
use crate::response::{
    default_response, set_body, set_header, set_status, HttpResponse, HttpResponseBuilder,
    ResponseModel,
};

verus! {

broadcast use {
    vstd::utf8::encode_utf8_valid_utf8,
    vstd::utf8::encode_utf8_decode_utf8,
    vstd::string::is_ascii_spec_bytes,
};

/// What the handler does with a request.
pub enum Route {
    /// Send this response.
    Respond(HttpResponse),
    /// Read the named file under the files directory, then answer with
    /// `file_response` of what was read.
    ServeFile(String),
}

pub open spec fn root_path() -> Seq<u8> {
    seq![47u8]
}

pub open spec fn user_agent_path() -> Seq<u8> {
    seq![47u8, 117, 115, 101, 114, 45, 97, 103, 101, 110, 116]
}

pub open spec fn echo_prefix() -> Seq<u8> {
    seq![47u8, 101, 99, 104, 111, 47]
}

pub open spec fn files_prefix() -> Seq<u8> {
    seq![47u8, 102, 105, 108, 101, 115, 47]
}

pub open spec fn user_agent_name() -> Seq<u8> {
    seq![85u8, 115, 101, 114, 45, 65, 103, 101, 110, 116]
}

pub open spec fn starts_with(s: Seq<u8>, p: Seq<u8>) -> bool {
    p.len() <= s.len() && s.subrange(0, p.len() as int) == p
}

pub open spec fn content_type_name() -> Seq<char> {
    seq!['C', 'o', 'n', 't', 'e', 'n', 't', '-', 'T', 'y', 'p', 'e']
}

pub open spec fn text_plain() -> Seq<char> {
    seq!['t', 'e', 'x', 't', '/', 'p', 'l', 'a', 'i', 'n']
}

pub open spec fn octet_stream() -> Seq<char> {
    seq![
        'a', 'p', 'p', 'l', 'i', 'c', 'a', 't', 'i', 'o', 'n', '/', 'o', 'c', 't', 'e', 't', '-',
        's', 't', 'r', 'e', 'a', 'm',
    ]
}

pub open spec fn not_found_message() -> Seq<char> {
    seq!['N', 'o', 't', ' ', 'F', 'o', 'u', 'n', 'd']
}

pub open spec fn server_error_message() -> Seq<char> {
    seq!['I', 'n', 't', 'e', 'r', 'n', 'a', 'l', ' ', 'S', 'e', 'r', 'v', 'e', 'r', ' ', 'E', 'r', 'r', 'o', 'r']
}

/// `404 Not Found` with no body.
pub open spec fn not_found_model() -> ResponseModel {
    set_status(default_response(), 404, not_found_message())
}

/// `200 OK` with a plain-text body.
pub open spec fn text_model(body: Seq<char>) -> ResponseModel {
    set_body(set_header(default_response(), content_type_name(), text_plain()), body)
}

/// The answer to `/user-agent`: the `User-Agent` value as text, or
/// `500 Internal Server Error` when the header is missing.
pub open spec fn user_agent_model(agent: Option<Seq<char>>) -> ResponseModel {
    match agent {
        Some(a) => text_model(a),
        None => set_status(default_response(), 500, server_error_message()),
    }
}

/// The answer to `/files/...` given what reading the file gave.
pub open spec fn file_model(contents: Option<Seq<char>>) -> ResponseModel {
    match contents {
        Some(c) => set_body(set_header(default_response(), content_type_name(), octet_stream()), c),
        None => not_found_model(),
    }
}

/// `200 OK` with no body.
pub fn ok_response() -> (r: HttpResponse)
    ensures
        r@ == default_response(),
{
    HttpResponseBuilder::new().build()
}

/// `404 Not Found` with no body.
pub fn not_found_response() -> (r: HttpResponse)
    ensures
        r@ == not_found_model(),
{
    let m = String::from_str("Not Found");
    proof {
        reveal_strlit("Not Found");
        assert(m@ =~= not_found_message());
    }
    HttpResponseBuilder::new().with_status(404, m).build()
}

/// `200 OK`, `Content-Type: text/plain`, and `body`.
pub fn text_response(body: String) -> (r: HttpResponse)
    ensures
        r@ == text_model(body@),
{
    let k = String::from_str("Content-Type");
    let v = String::from_str("text/plain");
    proof {
        reveal_strlit("Content-Type");
        reveal_strlit("text/plain");
        assert(k@ =~= content_type_name());
        assert(v@ =~= text_plain());
    }
    HttpResponseBuilder::new().with_header(k, v).with_body(body).build()
}

/// The `/user-agent` answer: the request's `User-Agent` header as the body.
pub fn user_agent_response(req: &HttpRequest) -> (r: HttpResponse)
    ensures
        r@ == user_agent_model(header_value(req@.headers, user_agent_name())),
{
    let name = "User-Agent";
    proof {
        reveal_strlit("User-Agent");
        assert(vstd::string::is_ascii(name));
        assert(name.spec_bytes() =~= user_agent_name());
    }
    match req.header(name) {
        Some(agent) => text_response(agent),
        None => {
            let m = String::from_str("Internal Server Error");
            proof {
                reveal_strlit("Internal Server Error");
                assert(m@ =~= server_error_message());
            }
            HttpResponseBuilder::new().with_status(500, m).build()
        },
    }
}

/// The `/files/...` answer from what reading the file gave: its contents as
/// `application/octet-stream`, or `404 Not Found` when it could not be read.
pub fn file_response(contents: Option<String>) -> (r: HttpResponse)
    ensures
        r@ == file_model(opt_text(contents)),
{
    match contents {
        Some(c) => {
            let k = String::from_str("Content-Type");
            let v = String::from_str("application/octet-stream");
            proof {
                reveal_strlit("Content-Type");
                reveal_strlit("application/octet-stream");
                assert(k@ =~= content_type_name());
                assert(v@ =~= octet_stream());
            }
            HttpResponseBuilder::new().with_header(k, v).with_body(c).build()
        },
        None => not_found_response(),
    }
}

/// A prefix of ASCII bytes in valid UTF-8 ends on a character boundary.
proof fn lemma_ascii_prefix_boundary(bytes: Seq<u8>, k: int)
    requires
        valid_utf8(bytes),
        0 <= k <= bytes.len(),
        forall|i: int| 0 <= i < k ==> bytes[i] <= 0x7f,
    ensures
        is_char_boundary(bytes, k),
    decreases k,
{
    if k > 0 {
        assert(length_of_first_scalar(bytes) == 1);
        let t = pop_first_scalar(bytes);
        assert(t =~= bytes.subrange(1, bytes.len() as int));
        assert(forall|i: int| 0 <= i < k - 1 ==> t[i] == bytes[i + 1]);
        lemma_ascii_prefix_boundary(t, k - 1);
    }
}

/// Whether `s` starts with `p`.
fn has_prefix(s: &[u8], p: &[u8]) -> (r: bool)
    ensures
        r == starts_with(s@, p@),
{
    if p.len() > s.len() {
        return false;
    }
    bytes_eq(slice_subrange(s, 0, p.len()), p)
}

/// The part of `path` after its first `k` bytes, which are ASCII.
fn path_rest(path: &String, k: usize) -> (r: String)
    requires
        k <= encode_utf8(path@).len(),
        forall|i: int| 0 <= i < k ==> encode_utf8(path@)[i] <= 0x7f,
    ensures
        r@ == decode_utf8(
            encode_utf8(path@).subrange(k as int, encode_utf8(path@).len() as int),
        ),
{
    let s = path.as_str();
    proof {
        lemma_ascii_prefix_boundary(s.spec_bytes(), k as int);
    }
    let (_, rest) = s.split_at(k);
    rest.to_owned()
}

/// Chooses the response to `req` by its path (compared as UTF-8 bytes):
/// exactly `/` gets `200 OK`; exactly `/user-agent` gets the `User-Agent`
/// header back; `/echo/<text>` gets `<text>` back; `/files/<name>` asks for
/// the file `<name>`; every other path gets `404 Not Found`.
pub fn route(req: &HttpRequest) -> (r: Route)
    ensures
        ({
            let pb = encode_utf8(req@.path);
            &&& pb == root_path() ==> r is Respond && r->Respond_0@ == default_response()
            &&& pb == user_agent_path() ==> r is Respond && r->Respond_0@ == user_agent_model(
                header_value(req@.headers, user_agent_name()),
            )
            &&& starts_with(pb, echo_prefix()) ==> r is Respond && r->Respond_0@ == text_model(
                decode_utf8(pb.subrange(6, pb.len() as int)),
            )
            &&& starts_with(pb, files_prefix()) ==> r is ServeFile && r->ServeFile_0@
                == decode_utf8(pb.subrange(7, pb.len() as int))
            &&& (pb != root_path() && pb != user_agent_path() && !starts_with(pb, echo_prefix())
                && !starts_with(pb, files_prefix())) ==> r is Respond && r->Respond_0@
                == not_found_model()
        }),
{
    let pb = req.path.as_str().as_bytes();
    let root = vec![47u8];
    let agent = vec![47u8, 117, 115, 101, 114, 45, 97, 103, 101, 110, 116];
    let echo = vec![47u8, 101, 99, 104, 111, 47];
    let files = vec![47u8, 102, 105, 108, 101, 115, 47];
    proof {
        assert(root@ =~= root_path());
        assert(agent@ =~= user_agent_path());
        assert(echo@ =~= echo_prefix());
        assert(files@ =~= files_prefix());
    }
    if bytes_eq(pb, root.as_slice()) {
        Route::Respond(ok_response())
    } else if bytes_eq(pb, agent.as_slice()) {
        Route::Respond(user_agent_response(req))
    } else if has_prefix(pb, echo.as_slice()) {
        proof {
            assert(forall|i: int| 0 <= i < 6 ==> pb@[i] == pb@.subrange(0, 6)[i]);
            assert(!starts_with(pb@, files_prefix()));
        }
        Route::Respond(text_response(path_rest(&req.path, 6)))
    } else if has_prefix(pb, files.as_slice()) {
        proof {
            assert(forall|i: int| 0 <= i < 7 ==> pb@[i] == pb@.subrange(0, 7)[i]);
        }
        Route::ServeFile(path_rest(&req.path, 7))
    } else {
        Route::Respond(not_found_response())
    }
}

/// Where the `/files/` route looks for `name`: `<dir>/<name>` when a files
/// directory is configured, else `name` itself.
pub fn file_path(dir: Option<String>, name: String) -> (r: String)
    ensures
        r@ == match dir {
            Some(d) => d@ + seq!['/'] + name@,
            None => name@,
        },
{
    match dir {
        Some(d) => {
            let mut p = d;
            p.append("/");
            p.append(name.as_str());
            proof {
                reveal_strlit("/");
            }
            p
        },
        None => name,
    }
}

} // verus!
