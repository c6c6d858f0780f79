//! The request: its fields, and the decoder that reads one from the text
//! that a connection delivered.

use vstd::prelude::*;
use vstd::string::*;
use vstd::utf8::{decode_utf8, valid_utf8};
use crate::helpers::{
    body_pairs, decode_pairs, json_object, parse_body, parse_query_params, raw_pairs,
};
use crate::params::{assoc_map, Params};
use crate::text::{
    after, before, chars_of, find_from, find_from_exec, is_space, lemma_find_from,
    lemma_find_from_is, lemma_find_from_skip,
    lemma_scan_is, lower, lower_is, matches_at,
    parse_number, parse_number_exec, scan_exec, slice_of, split_once, string_of, word_end,
    word_start,
};

verus! {

/// A decoded request.
#[derive(Clone, Debug)]
pub struct Request {
    pub method: String,
    pub route: String,
    pub host: String,
    pub user_agent: String,
    pub accept: String,
    pub connection: String,
    pub raw: String,
    pub content_length: usize,
    pub body: Params,
    pub query: Params,
    pub params: Params,
}

/// A request as contracts see it.
pub ghost struct RequestView {
    pub method: Seq<char>,
    pub route: Seq<char>,
    pub host: Seq<char>,
    pub user_agent: Seq<char>,
    pub accept: Seq<char>,
    pub connection: Seq<char>,
    pub raw: Seq<char>,
    pub content_length: usize,
    pub body: Map<Seq<char>, Seq<char>>,
    pub query: Map<Seq<char>, Seq<char>>,
    pub params: Map<Seq<char>, Seq<char>>,
}

impl View for Request {
    type V = RequestView;

    open spec fn view(&self) -> RequestView {
        RequestView {
            method: self.method@,
            route: self.route@,
            host: self.host@,
            user_agent: self.user_agent@,
            accept: self.accept@,
            connection: self.connection@,
            raw: self.raw@,
            content_length: self.content_length,
            body: self.body@,
            query: self.query@,
            params: self.params@,
        }
    }
}

/// The request that an empty text stands for: `GET /`, no headers but the
/// protocol's default for `connection`, nothing in the mappings.
pub open spec fn default_request() -> RequestView {
    RequestView {
        method: "GET"@,
        route: "/"@,
        host: Seq::empty(),
        user_agent: Seq::empty(),
        accept: Seq::empty(),
        connection: "keep-alive"@,
        raw: Seq::empty(),
        content_length: 0,
        body: Map::empty(),
        query: Map::empty(),
        params: Map::empty(),
    }
}

impl Request {
    /// The default request.
    pub fn new() -> (r: Request)
        ensures
            r@ == default_request(),
    {
        Request {
            method: "GET".to_owned(),
            route: "/".to_owned(),
            host: String::new(),
            user_agent: String::new(),
            accept: String::new(),
            connection: "keep-alive".to_owned(),
            raw: String::new(),
            content_length: 0,
            body: Params::new(),
            query: Params::new(),
            params: Params::new(),
        }
    }
}

impl Request {
    /// This request with other path parameters.
    pub fn with_params(&self, params: Params) -> (r: Request)
        ensures
            r@ == (RequestView { params: params@, ..self@ }),
    {
        Request {
            method: self.method.clone(),
            route: self.route.clone(),
            host: self.host.clone(),
            user_agent: self.user_agent.clone(),
            accept: self.accept.clone(),
            connection: self.connection.clone(),
            raw: self.raw.clone(),
            content_length: self.content_length,
            body: self.body.clone(),
            query: self.query.clone(),
            params,
        }
    }
}

/// The line break of the protocol.
pub open spec fn crlf() -> Seq<char> {
    seq!['\r', '\n']
}

/// What separates a header's name from its value.
pub open spec fn colon_space() -> Seq<char> {
    seq![':', ' ']
}

/// The request line: the text up to its first line break.
pub open spec fn request_line(text: Seq<char>) -> Seq<char> {
    before(text, crlf())
}

/// The method: the first word of the request line, `GET` where it has none.
pub open spec fn method_of(line: Seq<char>) -> Seq<char> {
    if word_start(line, 0) < word_end(line, 0) {
        line.subrange(word_start(line, 0), word_end(line, 0))
    } else {
        "GET"@
    }
}

/// The target: the second word of the request line, `/` where it has none.
pub open spec fn target_of(line: Seq<char>) -> Seq<char> {
    let b = word_end(line, 0);
    if word_start(line, b) < word_end(line, b) {
        line.subrange(word_start(line, b), word_end(line, b))
    } else {
        "/"@
    }
}

/// The path: the target up to its first `?`; `/` where that does not begin
/// with `/`.
pub open spec fn route_of(target: Seq<char>) -> Seq<char> {
    let path = before(target, seq!['?']);
    if path.len() > 0 && path[0] == '/' {
        path
    } else {
        "/"@
    }
}

/// The query string: the target after its first `?`.
pub open spec fn query_of(target: Seq<char>) -> Seq<char> {
    after(target, seq!['?'])
}

/// `v` after one header line. The name is what stands before the first `: `,
/// in any case of letters; a name that is not interpreted changes nothing. A
/// `content-length` that is no number counts as 0.
pub open spec fn with_header(v: RequestView, line: Seq<char>) -> RequestView {
    let name = lower(before(line, colon_space()));
    let value = after(line, colon_space());
    if name == "host"@ {
        RequestView { host: value, ..v }
    } else if name == "user-agent"@ {
        RequestView { user_agent: value, ..v }
    } else if name == "accept"@ {
        RequestView { accept: value, ..v }
    } else if name == "connection"@ {
        RequestView { connection: value, ..v }
    } else if name == "content-length"@ {
        RequestView {
            content_length: match parse_number(value) {
                Some(n) => n,
                None => 0,
            },
            ..v
        }
    } else {
        v
    }
}

/// `v` after the header lines that begin at `from`, up to the first empty
/// line or the end of the text.
pub open spec fn with_headers(text: Seq<char>, from: int, v: RequestView) -> RequestView
    decreases text.len() - from,
{
    if from < 0 || from >= text.len() {
        v
    } else {
        let end = find_from(text, crlf(), from);
        if end <= from {
            v
        } else if end + 2 > text.len() {
            with_header(v, text.subrange(from, end))
        } else {
            with_headers(text, end + 2, with_header(v, text.subrange(from, end)))
        }
    }
}

/// Where the body begins, for header lines that begin at `from`: behind the
/// first empty line, or at the end of the text where there is none.
pub open spec fn body_start(text: Seq<char>, from: int) -> int
    decreases text.len() - from,
{
    if from < 0 || from >= text.len() {
        text.len() as int
    } else {
        let end = find_from(text, crlf(), from);
        if end <= from {
            from + 2
        } else if end + 2 > text.len() {
            text.len() as int
        } else {
            body_start(text, end + 2)
        }
    }
}

/// Where the header lines begin: behind the request line.
pub open spec fn headers_start(text: Seq<char>) -> int {
    let end = find_from(text, crlf(), 0);
    if end < text.len() {
        end + 2
    } else {
        text.len() as int
    }
}

/// The body: the text from `body_start` on.
pub open spec fn body_text(text: Seq<char>) -> Seq<char> {
    text.subrange(body_start(text, headers_start(text)), text.len() as int)
}

/// The query string of the request line.
pub open spec fn query_text(text: Seq<char>) -> Seq<char> {
    query_of(target_of(request_line(text)))
}

/// The request that a text stands for, before its query string and its
/// body are decoded: the three mappings are empty.
pub open spec fn head_of(text: Seq<char>) -> RequestView {
    with_headers(
        text,
        headers_start(text),
        RequestView {
            method: method_of(request_line(text)),
            route: route_of(target_of(request_line(text))),
            raw: text,
            ..default_request()
        },
    )
}

/// The request that a text stands for. A text without a body has an empty
/// body mapping.
pub open spec fn request_of(text: Seq<char>) -> RequestView {
    RequestView {
        query: assoc_map(decode_pairs(raw_pairs(query_text(text)))),
        body: if body_text(text).len() == 0 {
            Map::empty()
        } else {
            assoc_map(body_pairs(body_text(text), json_object(body_text(text))))
        },
        ..head_of(text)
    }
}

/// Header lines change neither the method, the path, the raw text nor the
/// mappings.
pub proof fn lemma_headers_keep(text: Seq<char>, from: int, v: RequestView)
    ensures
        with_headers(text, from, v).method == v.method,
        with_headers(text, from, v).route == v.route,
        with_headers(text, from, v).raw == v.raw,
        with_headers(text, from, v).body == v.body,
        with_headers(text, from, v).query == v.query,
        with_headers(text, from, v).params == v.params,
    decreases text.len() - from,
{
    if 0 <= from && from < text.len() {
        let end = find_from(text, crlf(), from);
        if end > from && end + 2 <= text.len() {
            lemma_headers_keep(text, end + 2, with_header(v, text.subrange(from, end)));
        }
    }
}

/// The path of every decoded request begins with `/`.
pub proof fn lemma_route_rooted(text: Seq<char>)
    ensures
        request_of(text).route.len() > 0,
        request_of(text).route[0] == '/',
{
    reveal_strlit("/");
    let v = RequestView {
        method: method_of(request_line(text)),
        route: route_of(target_of(request_line(text))),
        raw: text,
        ..default_request()
    };
    lemma_headers_keep(text, headers_start(text), v);
}

/// The empty line that ends the headers: two line breaks in a row.
pub open spec fn blank_line() -> Seq<char> {
    seq!['\r', '\n', '\r', '\n']
}

/// Two line breaks in a row are a line break here and a line break two
/// characters on.
proof fn lemma_blank_line_at(text: Seq<char>, j: int)
    ensures
        matches_at(text, blank_line(), j) <==> matches_at(text, crlf(), j) && matches_at(
            text,
            crlf(),
            j + 2,
        ),
{
    if matches_at(text, blank_line(), j) {
        let q = text.subrange(j, j + 4);
        assert(q[0] == '\r' && q[1] == '\n' && q[2] == '\r' && q[3] == '\n');
        assert(text.subrange(j, j + 2) =~= crlf());
        assert(text.subrange(j + 2, j + 4) =~= crlf());
    }
    if matches_at(text, crlf(), j) && matches_at(text, crlf(), j + 2) {
        let a = text.subrange(j, j + 2);
        let b = text.subrange(j + 2, j + 4);
        assert(a[0] == '\r' && a[1] == '\n' && b[0] == '\r' && b[1] == '\n');
        assert(text.subrange(j, j + 4) =~= blank_line());
    }
}

/// Behind a line break, the body begins behind the next empty line.
proof fn lemma_body_start(text: Seq<char>, from: int)
    requires
        2 <= from <= text.len(),
        matches_at(text, crlf(), from - 2),
    ensures
        body_start(text, from) == (if find_from(text, blank_line(), from - 2) < text.len() {
            find_from(text, blank_line(), from - 2) + 4
        } else {
            text.len() as int
        }),
    decreases text.len() - from,
{
    let len = text.len() as int;
    assert(text.subrange(from - 2, from)[1] == '\n');
    assert(text[from - 1] == '\n');
    assert(!matches_at(text, blank_line(), from - 1)) by {
        if matches_at(text, blank_line(), from - 1) {
            assert(text.subrange(from - 1, from + 3)[0] == '\r');
        }
    }
    if from >= len {
        assert forall|j: int| from - 2 <= j < len implies !matches_at(text, blank_line(), j) by {}
        lemma_find_from_is(text, blank_line(), from - 2, len);
    } else {
        let end = find_from(text, crlf(), from);
        lemma_find_from(text, crlf(), from);
        lemma_blank_line_at(text, from - 2);
        if end <= from {
        } else {
            assert forall|j: int| from - 2 <= j < end implies !matches_at(
                text,
                blank_line(),
                j,
            ) by {
                lemma_blank_line_at(text, j);
            }
            if end + 2 > len {
                lemma_find_from_is(text, blank_line(), from - 2, len);
            } else {
                lemma_find_from_skip(text, blank_line(), from - 2, end);
                lemma_body_start(text, end + 2);
            }
        }
    }
}

/// The body of a request is what stands after the first empty line: after
/// the first two line breaks in a row.
pub proof fn lemma_body_after_blank_line(text: Seq<char>)
    ensures
        body_text(text) == after(text, blank_line()),
{
    let len = text.len() as int;
    let first = find_from(text, crlf(), 0);
    lemma_find_from(text, crlf(), 0);
    lemma_find_from(text, blank_line(), 0);
    assert forall|j: int| 0 <= j < first implies !matches_at(text, blank_line(), j) by {
        lemma_blank_line_at(text, j);
    }
    if first < len {
        lemma_find_from_skip(text, blank_line(), 0, first);
        lemma_body_start(text, first + 2);
        lemma_find_from(text, blank_line(), first);
        assert(body_text(text) =~= after(text, blank_line()));
    } else {
        lemma_find_from_is(text, blank_line(), 0, len);
        assert(body_text(text) =~= after(text, blank_line()));
    }
}

/// A request line made of a method, a space, a path, a space and a version
/// decodes to that method and that path, whatever follows the line: the
/// method any word, the path any word that begins with `/` and holds no `?`.
pub proof fn lemma_request_line(
    method: Seq<char>,
    path: Seq<char>,
    version: Seq<char>,
    rest: Seq<char>,
)
    requires
        method.len() > 0,
        forall|i: int| 0 <= i < method.len() ==> !is_space(method[i]),
        path.len() > 0,
        path[0] == '/',
        forall|i: int| 0 <= i < path.len() ==> !is_space(path[i]) && path[i] != '?',
        forall|i: int| 0 <= i < version.len() ==> version[i] != '\r',
    ensures
        request_of(method + seq![' '] + path + seq![' '] + version + crlf() + rest).method
            == method,
        request_of(method + seq![' '] + path + seq![' '] + version + crlf() + rest).route == path,
{
    let line = method + seq![' '] + path + seq![' '] + version;
    let text = line + crlf() + rest;
    let m = method.len() as int;
    let p = path.len() as int;
    assert(is_space(' ') && is_space('\r'));
    assert forall|j: int| 0 <= j < line.len() implies !matches_at(text, crlf(), j) by {
        if matches_at(text, crlf(), j) {
            assert(text.subrange(j, j + 2)[0] == '\r');
            assert(text[j] == line[j]);
        }
    }
    assert(matches_at(text, crlf(), line.len() as int)) by {
        assert(text.subrange(line.len() as int, line.len() as int + 2) =~= crlf());
    }
    lemma_find_from_is(text, crlf(), 0, line.len() as int);
    assert(request_line(text) =~= line);
    lemma_scan_is(line, 0, false, 0);
    lemma_scan_is(line, 0, true, m);
    assert(line.len() == m + 1 + p + 1 + version.len());
    assert forall|k: int| 0 <= k < m implies line[k] == method[k] by {}
    assert forall|k: int| 0 <= k < p implies line[m + 1 + k] == path[k] by {}
    assert(line.subrange(0, m) =~= method);
    lemma_scan_is(line, m, false, m + 1);
    lemma_scan_is(line, m + 1, true, m + 1 + p);
    assert(line.subrange(m + 1, m + 1 + p) =~= path);
    assert(target_of(line) == path);
    assert forall|j: int| 0 <= j < p implies !matches_at(path, seq!['?'], j) by {
        if matches_at(path, seq!['?'], j) {
            assert(path.subrange(j, j + 1)[0] == '?');
        }
    }
    lemma_find_from_is(path, seq!['?'], 0, p);
    assert(before(path, seq!['?']) =~= path);
    lemma_headers_keep(
        text,
        headers_start(text),
        RequestView {
            method: method_of(request_line(text)),
            route: route_of(target_of(request_line(text))),
            raw: text,
            ..default_request()
        },
    );
}

/// One header line, read into `request`.
pub fn apply_header(request: &mut Request, line: &Vec<char>)
    ensures
        final(request)@ == with_header(old(request)@, line@),
{
    let sep: Vec<char> = vec![':', ' '];
    assert(sep@ =~= colon_space());
    let parts = split_once(line, &sep);
    let name = parts.0;
    let value = parts.1;
    assert(value@.subrange(0, value@.len() as int) =~= value@);
    if lower_is(&name, "host") {
        request.host = string_of(&value, 0, value.len());
    } else if lower_is(&name, "user-agent") {
        request.user_agent = string_of(&value, 0, value.len());
    } else if lower_is(&name, "accept") {
        request.accept = string_of(&value, 0, value.len());
    } else if lower_is(&name, "connection") {
        request.connection = string_of(&value, 0, value.len());
    } else if lower_is(&name, "content-length") {
        request.content_length = match parse_number_exec(&value) {
            Some(n) => n,
            None => 0,
        };
    }
}

/// A request line and headers, with the query string and the body still as
/// text.
pub struct Head {
    pub request: Request,
    pub query: String,
    pub body: String,
}

/// Reads the request line and the headers of a text, and cuts out its query
/// string and its body.
pub fn parse_head(text: &str) -> (h: Head)
    ensures
        h.request@ == head_of(text@),
        h.query@ == query_text(text@),
        h.body@ == body_text(text@),
{
    let s = chars_of(text);
    let brk: Vec<char> = vec!['\r', '\n'];
    let mark: Vec<char> = vec!['?'];
    assert(brk@ =~= crlf());
    assert(mark@ =~= seq!['?']);
    let e0 = find_from_exec(&s, &brk, 0);
    let line = slice_of(&s, 0, e0);
    let a = scan_exec(&line, 0, false);
    let b = scan_exec(&line, a, true);
    let c = scan_exec(&line, b, false);
    let d = scan_exec(&line, c, true);
    let mut request = Request::new();
    if a < b {
        request.method = string_of(&line, a, b);
    }
    let target: Vec<char> = if c < d {
        slice_of(&line, c, d)
    } else {
        chars_of("/")
    };
    let parts = split_once(&target, &mark);
    assert(parts.0@.subrange(0, parts.0@.len() as int) =~= parts.0@);
    assert(parts.1@.subrange(0, parts.1@.len() as int) =~= parts.1@);
    if parts.0.len() > 0 && parts.0[0] == '/' {
        request.route = string_of(&parts.0, 0, parts.0.len());
    }
    let query = string_of(&parts.1, 0, parts.1.len());
    request.raw = text.to_owned();
    let start: usize = if e0 < s.len() {
        e0 + 2
    } else {
        s.len()
    };
    let ghost first = request@;
    let mut i: usize = start;
    let mut body_at: usize = s.len();
    let mut done = false;
    while !done && i < s.len()
        invariant
            s@ == text@,
            brk@ == crlf(),
            i <= s@.len(),
            body_at <= s@.len(),
            done ==> request@ == with_headers(s@, start as int, first) && body_at == body_start(
                s@,
                start as int,
            ),
            !done ==> with_headers(s@, i as int, request@) == with_headers(
                s@,
                start as int,
                first,
            ) && body_start(s@, i as int) == body_start(s@, start as int) && body_at == s@.len(),
        decreases s@.len() - i + (if done { 0int } else { 1int }),
    {
        let end = find_from_exec(&s, &brk, i);
        if end == i {
            body_at = i + 2;
            done = true;
        } else {
            let header = slice_of(&s, i, end);
            apply_header(&mut request, &header);
            if end < s.len() {
                i = end + 2;
            } else {
                i = s.len();
            }
        }
    }
    let body = string_of(&s, body_at, s.len());
    Head { request, query, body }
}

/// Decodes the text that a connection delivered. Decoding never fails: what
/// cannot be read is left at its default.
pub fn parse_request_text(text: &str) -> (r: Request)
    ensures
        r@ == request_of(text@),
        r@.route.len() > 0 && r@.route[0] == '/',
{
    let head = parse_head(text);
    let mut request = head.request;
    request.query = parse_query_params(head.query.as_str());
    if head.body.as_str().unicode_len() > 0 {
        request.body = parse_body(head.body.as_str());
    }
    proof {
        lemma_route_rooted(text@);
        lemma_headers_keep(
            text@,
            headers_start(text@),
            RequestView {
                method: method_of(request_line(text@)),
                route: route_of(target_of(request_line(text@))),
                raw: text@,
                ..default_request()
            },
        );
    }
    request
}

/// What `String::from_utf8_lossy` makes of bytes: their text as UTF-8, with
/// the replacement character for what is not.
pub uninterp spec fn utf8_lossy(bytes: Seq<u8>) -> Seq<char>;

/// Calls `String::from_utf8_lossy`. Bytes that are UTF-8 give the text that
/// they encode.
#[verifier::external_body]
fn lossy_text(data: &[u8]) -> (r: String)
    ensures
        r@ == utf8_lossy(data@),
        r@ == decode_utf8(data@) || !valid_utf8(data@),
{
    String::from_utf8_lossy(data).into_owned()
}

/// Decodes the bytes that a connection delivered.
pub fn parse_request_data(data: &[u8]) -> (r: Request)
    ensures
        r@ == request_of(utf8_lossy(data@)),
        valid_utf8(data@) ==> r@ == request_of(decode_utf8(data@)),
        r@.route.len() > 0 && r@.route[0] == '/',
{
    let text = lossy_text(data);
    parse_request_text(text.as_str())
}

} // verus!
