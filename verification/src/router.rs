//! The route table, the dispatcher and the response encoder.

use vstd::prelude::*;
use vstd::string::*;
use vstd::utf8::encode_utf8;
use crate::helpers::{parse_dynamic_url_params, segment_params};
use crate::params::{assoc_map, Pairs, Params};
use crate::request::{Request, RequestView};
use crate::response::{stored_text, Body, BodyView, Response, ResponseView};
use crate::text::{
    after, before, chars_of, decimal, free_of, lemma_find_from_is, lemma_replace_none,
    matches_at, push_all, push_decimal, push_signed_decimal, push_str,
    replace, replace_exec, same_text, signed_decimal, split, split_once, string_of, trim,
    trim_end, trim_end_exec, trim_start, trim_start_exec,
};

verus! {

/// The methods that the route table knows, and one for every other token.
#[derive(Clone, Copy, Debug, PartialEq, Eq)]
pub enum Method {
    Get,
    Post,
    Put,
    Patch,
    Delete,
    Unsupported,
}

/// The method that a token names.
pub open spec fn method_kind(token: Seq<char>) -> Method {
    if token == "GET"@ {
        Method::Get
    } else if token == "POST"@ {
        Method::Post
    } else if token == "PUT"@ {
        Method::Put
    } else if token == "PATCH"@ {
        Method::Patch
    } else if token == "DELETE"@ {
        Method::Delete
    } else {
        Method::Unsupported
    }
}

/// Computes `method_kind`.
pub fn classify(token: &str) -> (m: Method)
    ensures
        m == method_kind(token@),
{
    if same_text(token, "GET") {
        Method::Get
    } else if same_text(token, "POST") {
        Method::Post
    } else if same_text(token, "PUT") {
        Method::Put
    } else if same_text(token, "PATCH") {
        Method::Patch
    } else if same_text(token, "DELETE") {
        Method::Delete
    } else {
        Method::Unsupported
    }
}

/// The `Set-Cookie` line of one cookie, with the fixed attributes.
pub open spec fn cookie_line(cookie: (Seq<char>, Seq<char>)) -> Seq<char> {
    "Set-Cookie: "@ + cookie.0 + "="@ + cookie.1
        + "; HttpOnly; Path=/; Domain=example.com; Max-Age=3600\r\n"@
}

/// The `Set-Cookie` lines of the cookies from index `i` on, one line each.
pub open spec fn cookie_lines(cookies: Pairs, i: int) -> Seq<char>
    decreases cookies.len() - i,
{
    if i < 0 || i >= cookies.len() {
        Seq::empty()
    } else {
        cookie_line(cookies[i]) + cookie_lines(cookies, i + 1)
    }
}

/// The `Content-Disposition` line of a file response; nothing for another.
pub open spec fn disposition_line(file_name: Option<Seq<char>>) -> Seq<char> {
    match file_name {
        Some(name) => "Content-Disposition: attachment; filename=\""@ + name + "\"\r\n"@,
        None => Seq::empty(),
    }
}

/// The number of bytes of a text in UTF-8, as a `usize` counts them.
pub open spec fn byte_len(content: Seq<char>) -> usize {
    encode_utf8(content).len() as usize
}

/// A response on the wire: the status line, the cookies, the content type,
/// the disposition of a file, the content's length in bytes, an empty line
/// and the content.
pub open spec fn wire_text(
    status: i64,
    reason: Seq<char>,
    cookies: Pairs,
    content_type: Seq<char>,
    file_name: Option<Seq<char>>,
    content: Seq<char>,
) -> Seq<char> {
    "HTTP/1.1 "@ + signed_decimal(status as int) + " "@ + reason + "\r\n"@ + cookie_lines(
        cookies,
        0,
    ) + "Content-Type: "@ + content_type + "\r\n"@ + disposition_line(file_name)
        + "Content-Length: "@ + decimal(byte_len(content) as nat) + "\r\n\r\n"@ + content
}

/// Writes a response's parts as they go over the wire.
pub fn encode(
    status: i64,
    reason: &str,
    cookies: &Params,
    content_type: &str,
    file_name: Option<&str>,
    content: &str,
) -> (out: String)
    ensures
        out@ == wire_text(
            status,
            reason@,
            cookies.pairs(),
            content_type@,
            match file_name {
                Some(n) => Some(n@),
                None => None,
            },
            content@,
        ),
{
    let mut lines: Vec<char> = Vec::new();
    let mut i: usize = 0;
    let n = cookies.len();
    assert(lines@ + cookie_lines(cookies.pairs(), 0) =~= cookie_lines(cookies.pairs(), 0));
    while i < n
        invariant
            i <= n,
            n == cookies.pairs().len(),
            lines@ + cookie_lines(cookies.pairs(), i as int) == cookie_lines(cookies.pairs(), 0),
        decreases n - i,
    {
        let ghost prev = lines@;
        let ghost line = cookie_line(cookies.pairs()[i as int]);
        push_str(&mut lines, "Set-Cookie: ");
        push_str(&mut lines, cookies.key_at(i).as_str());
        push_str(&mut lines, "=");
        push_str(&mut lines, cookies.value_at(i).as_str());
        push_str(&mut lines, "; HttpOnly; Path=/; Domain=example.com; Max-Age=3600\r\n");
        assert(lines@ =~= prev + line);
        assert(lines@ + cookie_lines(cookies.pairs(), i + 1) =~= prev + cookie_lines(
            cookies.pairs(),
            i as int,
        ));
        i += 1;
    }
    assert(lines@ =~= cookie_lines(cookies.pairs(), 0)) by {
        assert(lines@ + Seq::<char>::empty() =~= lines@);
    }
    let mut disposition: Vec<char> = Vec::new();
    match file_name {
        Some(name) => {
            push_str(&mut disposition, "Content-Disposition: attachment; filename=\"");
            push_str(&mut disposition, name);
            push_str(&mut disposition, "\"\r\n");
        },
        None => {},
    }
    assert(disposition@ =~= disposition_line(
        match file_name {
            Some(n) => Some(n@),
            None => None,
        },
    ));
    let length: usize = content.len();
    let mut out: Vec<char> = Vec::new();
    push_str(&mut out, "HTTP/1.1 ");
    assert(out@ =~= "HTTP/1.1 "@);
    push_signed_decimal(&mut out, status);
    push_str(&mut out, " ");
    push_str(&mut out, reason);
    push_str(&mut out, "\r\n");
    push_all(&mut out, &lines);
    push_str(&mut out, "Content-Type: ");
    push_str(&mut out, content_type);
    push_str(&mut out, "\r\n");
    push_all(&mut out, &disposition);
    push_str(&mut out, "Content-Length: ");
    push_decimal(&mut out, length as u64);
    push_str(&mut out, "\r\n\r\n");
    push_str(&mut out, content);
    assert(out@.subrange(0, out@.len() as int) =~= out@);
    string_of(&out, 0, out.len())
}

/// What `serde_json` writes for a string: the JSON string literal, in
/// quotes, with the escapes of JSON.
pub uninterp spec fn json_string(text: Seq<char>) -> Seq<char>;

/// A text that JSON writes between quotes as it is: it holds no quote, no
/// backslash and no control character.
pub open spec fn plain(text: Seq<char>) -> bool {
    forall|i: int|
        0 <= i < text.len() ==> text[i] != '"' && text[i] != '\\' && (text[i] as u32) >= 0x20
}

/// Calls `to_string` on the `serde_json::Value` that is the string `text`.
/// A plain text comes back between two quotes, unchanged.
#[verifier::external_body]
fn json_quote(text: &str) -> (r: String)
    ensures
        r@ == json_string(text@),
        r@ == seq!['"'] + text@ + seq!['"'] || !plain(text@),
{
    serde_json::Value::String(text.to_owned()).to_string()
}

/// The escaped line break that the stored form of a payload holds.
pub open spec fn escaped_break() -> Seq<char> {
    seq!['\\', 'r', '\\', 'n']
}

/// The escaped quote that the stored form of a payload holds.
pub open spec fn escaped_quote() -> Seq<char> {
    seq!['\\', '"']
}

/// The file's name in the stored form of a file payload: what stands before
/// the first colon, without quotes around it.
pub open spec fn stored_name(stored: Seq<char>) -> Seq<char> {
    trim(before(stored, seq![':']), '"')
}

/// The file's content in the stored form of a file payload: what stands
/// after the first colon, with each escaped line break made a line feed, each
/// escaped quote a quote, and without quotes at the end.
pub open spec fn stored_content(stored: Seq<char>) -> Seq<char> {
    trim_end(
        replace(
            replace(after(stored, seq![':']), escaped_break(), seq!['\n']),
            escaped_quote(),
            seq!['"'],
        ),
        '"',
    )
}

/// The stored form of a plain payload gives back the file's name and the
/// content, where the name holds no colon.
pub proof fn lemma_stored_round_trip(name: Seq<char>, content: Seq<char>)
    requires
        free_of(name, ':'),
        free_of(name, '"'),
        free_of(content, '"'),
        free_of(content, '\\'),
    ensures
        stored_name(seq!['"'] + stored_text(name, content) + seq!['"']) == name,
        stored_content(seq!['"'] + stored_text(name, content) + seq!['"']) == content,
{
    let s = seq!['"'] + stored_text(name, content) + seq!['"'];
    let n = name.len() as int;
    assert forall|k: int| 0 <= k < n implies s[k + 1] == name[k] by {}
    assert forall|j: int| 0 <= j < n + 1 implies !matches_at(s, seq![':'], j) by {
        if matches_at(s, seq![':'], j) {
            assert(s.subrange(j, j + 1)[0] == ':');
            if j > 0 {
                assert(s[j] == name[j - 1]);
            }
        }
    }
    assert(matches_at(s, seq![':'], n + 1)) by {
        assert(s.subrange(n + 1, n + 2) =~= seq![':']);
    }
    lemma_find_from_is(s, seq![':'], 0, n + 1);
    let head = seq!['"'] + name;
    assert(before(s, seq![':']) =~= head);
    assert(head.drop_first() =~= name);
    assert(trim_start(head, '"') == trim_start(name, '"'));
    assert(trim_start(name, '"') == name);
    assert(trim_end(name, '"') == name);
    let tail = content + seq!['"'];
    assert(after(s, seq![':']) =~= tail);
    assert(free_of(tail, '\\'));
    lemma_replace_none(tail, escaped_break(), seq!['\n'], 0);
    lemma_replace_none(tail, escaped_quote(), seq!['"'], 0);
    assert(tail.subrange(0, tail.len() as int) =~= tail);
    assert(tail.drop_last() =~= content);
    assert(trim_end(tail, '"') == trim_end(content, '"'));
    assert(trim_end(content, '"') == content);
}

/// Takes the stored form of a file payload apart: the file's name and its
/// content.
pub fn file_payload(stored: &str) -> (r: (String, String))
    ensures
        r.0@ == stored_name(stored@),
        r.1@ == stored_content(stored@),
{
    let s = chars_of(stored);
    let colon: Vec<char> = vec![':'];
    assert(colon@ =~= seq![':']);
    let parts = split_once(&s, &colon);
    let name = trim_end_exec(&trim_start_exec(&parts.0, '"'), '"');
    let brk: Vec<char> = vec!['\\', 'r', '\\', 'n'];
    let feed: Vec<char> = vec!['\n'];
    let esc: Vec<char> = vec!['\\', '"'];
    let quote: Vec<char> = vec!['"'];
    assert(brk@ =~= escaped_break());
    assert(feed@ =~= seq!['\n']);
    assert(esc@ =~= escaped_quote());
    assert(quote@ =~= seq!['"']);
    let data = trim_end_exec(&replace_exec(&replace_exec(&parts.1, &brk, &feed), &esc, &quote), '"');
    assert(name@.subrange(0, name@.len() as int) =~= name@);
    assert(data@.subrange(0, data@.len() as int) =~= data@);
    (string_of(&name, 0, name.len()), string_of(&data, 0, data.len()))
}

/// The stored form of a payload: a text as its JSON string literal, a JSON
/// document as it is.
pub open spec fn stored_form(body: BodyView) -> Seq<char> {
    match body {
        BodyView::Text(s) => json_string(s),
        BodyView::Json(t) => t,
    }
}

/// What a response that is no file sends: its text, or the JSON text of its
/// document.
pub open spec fn payload(body: BodyView) -> Seq<char> {
    match body {
        BodyView::Text(s) => s,
        BodyView::Json(t) => t,
    }
}

/// A response on the wire. A file response sends the name and the content
/// that its stored payload holds; any other sends its payload.
pub open spec fn encoded(r: ResponseView) -> Seq<char> {
    if r.is_file {
        wire_text(
            r.status,
            r.status_text,
            r.cookies,
            r.content_type,
            Some(stored_name(stored_form(r.body))),
            stored_content(stored_form(r.body)),
        )
    } else {
        wire_text(
            r.status,
            r.status_text,
            r.cookies,
            r.content_type,
            None,
            payload(r.body),
        )
    }
}

/// A response that is no file goes over the wire with its payload at the
/// end, behind a `Content-Length` that counts the payload's bytes.
pub proof fn lemma_payload_on_wire(r: ResponseView)
    requires
        !r.is_file,
    ensures
        encoded(r) == wire_text(
            r.status,
            r.status_text,
            r.cookies,
            r.content_type,
            None,
            payload(r.body),
        ),
        encoded(r).len() >= payload(r.body).len(),
        encoded(r).subrange(
            encoded(r).len() - payload(r.body).len(),
            encoded(r).len() as int,
        ) == payload(r.body),
{
    let text = payload(r.body);
    let head = "HTTP/1.1 "@ + signed_decimal(r.status as int) + " "@ + r.status_text + "\r\n"@
        + cookie_lines(r.cookies, 0) + "Content-Type: "@ + r.content_type + "\r\n"@
        + disposition_line(None) + "Content-Length: "@ + decimal(byte_len(text) as nat)
        + "\r\n\r\n"@;
    assert(encoded(r) == head + text);
    assert((head + text).subrange((head + text).len() - text.len(), (head + text).len() as int)
        =~= text);
}

/// The lines of the cookies from `from` on hold the line of each of them.
pub proof fn lemma_cookie_lines_hold(cookies: Pairs, from: int, i: int)
    requires
        0 <= from <= i < cookies.len(),
    ensures
        exists|head: Seq<char>|
            cookie_lines(cookies, from) == head + cookie_line(cookies[i]) + cookie_lines(
                cookies,
                i + 1,
            ),
    decreases i - from,
{
    if from == i {
        let head = Seq::<char>::empty();
        assert(cookie_lines(cookies, from) =~= head + cookie_line(cookies[i]) + cookie_lines(
            cookies,
            i + 1,
        ));
    } else {
        lemma_cookie_lines_hold(cookies, from + 1, i);
        let rest = choose|rest: Seq<char>|
            cookie_lines(cookies, from + 1) == rest + cookie_line(cookies[i]) + cookie_lines(
                cookies,
                i + 1,
            );
        let head = cookie_line(cookies[from]) + rest;
        assert(cookie_lines(cookies, from) =~= head + cookie_line(cookies[i]) + cookie_lines(
            cookies,
            i + 1,
        ));
    }
}

/// Every cookie of a response has its `Set-Cookie` line on the wire, and that
/// line stands before the `Content-Type` line.
pub proof fn lemma_cookie_on_wire(
    status: i64,
    reason: Seq<char>,
    cookies: Pairs,
    content_type: Seq<char>,
    file_name: Option<Seq<char>>,
    content: Seq<char>,
    i: int,
)
    requires
        0 <= i < cookies.len(),
    ensures
        exists|head: Seq<char>, between: Seq<char>, tail: Seq<char>|
            wire_text(status, reason, cookies, content_type, file_name, content) == head
                + cookie_line(cookies[i]) + between + "Content-Type: "@ + content_type + "\r\n"@
                + tail,
{
    lemma_cookie_lines_hold(cookies, 0, i);
    let before = choose|before: Seq<char>|
        cookie_lines(cookies, 0) == before + cookie_line(cookies[i]) + cookie_lines(
            cookies,
            i + 1,
        );
    let head = "HTTP/1.1 "@ + signed_decimal(status as int) + " "@ + reason + "\r\n"@ + before;
    let between = cookie_lines(cookies, i + 1);
    let tail = disposition_line(file_name) + "Content-Length: "@ + decimal(
        byte_len(content) as nat,
    ) + "\r\n\r\n"@ + content;
    assert(wire_text(status, reason, cookies, content_type, file_name, content) =~= head
        + cookie_line(cookies[i]) + between + "Content-Type: "@ + content_type + "\r\n"@ + tail);
}

/// Encodes a handler's response. A file response whose name and content are
/// plain goes out with that name in its `Content-Disposition` line and with
/// that content as its payload, unchanged.
pub fn handle_ok(response: &Response) -> (out: String)
    ensures
        out@ == encoded(response@),
        forall|name: Seq<char>, content: Seq<char>|
            response.is_file && response@.body == BodyView::Text(
                #[trigger] stored_text(name, content),
            ) && plain(name) && plain(content) && free_of(name, ':') ==> out@ == wire_text(
                response.status,
                response.status_text@,
                response.cookies.pairs(),
                response.content_type@,
                Some(name),
                content,
            ),
{
    if response.is_file {
        let stored = match &response.body {
            Body::Text(s) => json_quote(s.as_str()),
            Body::Json(t) => t.clone(),
        };
        assert forall|name: Seq<char>, content: Seq<char>|
            response@.body == BodyView::Text(#[trigger] stored_text(name, content)) && plain(name)
                && plain(content) && free_of(name, ':') implies stored_name(stored@) == name
                && stored_content(stored@) == content by {
            assert(plain(stored_text(name, content))) by {
                assert forall|i: int| 0 <= i < name.len() implies stored_text(name, content)[i]
                    == name[i] by {}
                assert forall|i: int| 0 <= i < content.len() implies stored_text(
                    name,
                    content,
                )[name.len() + 1 + i] == content[i] by {}
            }
            lemma_stored_round_trip(name, content);
        }
        let parts = file_payload(stored.as_str());
        encode(
            response.status,
            response.status_text.as_str(),
            &response.cookies,
            response.content_type.as_str(),
            Some(parts.0.as_str()),
            parts.1.as_str(),
        )
    } else {
        let content = match &response.body {
            Body::Text(s) => s.as_str(),
            Body::Json(t) => t.as_str(),
        };
        encode(
            response.status,
            response.status_text.as_str(),
            &response.cookies,
            response.content_type.as_str(),
            None,
            content,
        )
    }
}

/// The reply to a request whose path has no handler.
pub open spec fn not_found_text() -> Seq<char> {
    "HTTP/1.1 404 Not Found\r\nContent-type: application/json\r\n\r\n{\"error\":\"Page not found\"}"@
}

/// The reply to a request whose method is not supported.
pub open spec fn method_not_allowed_text() -> Seq<char> {
    "HTTP/1.1 405 Method Not Allowed\r\nContent-type: application/json\r\n\r\n{\"error\":\"This method is not allowed\"}"@
}

/// The reply to a request whose path has no handler.
pub fn handle_not_found() -> (out: String)
    ensures
        out@ == not_found_text(),
{
    "HTTP/1.1 404 Not Found\r\nContent-type: application/json\r\n\r\n{\"error\":\"Page not found\"}".to_owned()
}

/// The reply to a request whose method is not supported.
pub fn handle_method_not_allowed() -> (out: String)
    ensures
        out@ == method_not_allowed_text(),
{
    "HTTP/1.1 405 Method Not Allowed\r\nContent-type: application/json\r\n\r\n{\"error\":\"This method is not allowed\"}".to_owned()
}


/// A handler: one that answers at once, or one whose answer has to be
/// awaited.
pub enum EitherHandler<S, A> {
    Sync(S),
    Async(A),
}

/// The entries of a route table, as characters and handlers, in the order of
/// their registration.
pub open spec fn entries_of<H>(table: Seq<(String, H)>) -> Seq<(Seq<char>, H)> {
    Seq::new(table.len(), |i: int| (table[i].0@, table[i].1))
}

/// The handler that a table holds for a path: the one registered last under
/// exactly that path.
pub open spec fn lookup<H>(entries: Seq<(Seq<char>, H)>, path: Seq<char>) -> Option<H>
    decreases entries.len(),
{
    if entries.len() == 0 {
        None
    } else if entries.last().0 == path {
        Some(entries.last().1)
    } else {
        lookup(entries.drop_last(), path)
    }
}

/// Computes `lookup`.
pub fn find_route<'a, H>(table: &'a Vec<(String, H)>, path: &str) -> (r: Option<&'a H>)
    ensures
        match lookup(entries_of(table@), path@) {
            Some(h) => r matches Some(x) && *x == h,
            None => r is None,
        },
{
    let mut n: usize = table.len();
    assert(entries_of(table@).subrange(0, n as int) =~= entries_of(table@));
    while n > 0
        invariant
            n <= table@.len(),
            lookup(entries_of(table@), path@) == lookup(
                entries_of(table@).subrange(0, n as int),
                path@,
            ),
        decreases n,
    {
        if same_text(table[n - 1].0.as_str(), path) {
            return Some(&table[n - 1].1);
        }
        assert(entries_of(table@).subrange(0, n as int).drop_last() =~= entries_of(
            table@,
        ).subrange(0, n - 1));
        n -= 1;
    }
    None
}

/// The route table: one table of handlers for each supported method.
pub struct Router<S, A> {
    get_routes: Vec<(String, EitherHandler<S, A>)>,
    post_routes: Vec<(String, EitherHandler<S, A>)>,
    put_routes: Vec<(String, EitherHandler<S, A>)>,
    delete_routes: Vec<(String, EitherHandler<S, A>)>,
    patch_routes: Vec<(String, EitherHandler<S, A>)>,
}

/// What the dispatcher decides for a request.
pub enum Dispatch<'a, S, A> {
    /// Call this handler; the request's path gives these parameters.
    Invoke { handler: &'a EitherHandler<S, A>, params: Params },
    /// Send this text.
    Reply(String),
}

impl<S, A> Router<S, A> {
    /// The registrations under a method, oldest first. None under a method
    /// that is not supported.
    pub closed spec fn routes(self, method: Method) -> Seq<(Seq<char>, EitherHandler<S, A>)> {
        match method {
            Method::Get => entries_of(self.get_routes@),
            Method::Post => entries_of(self.post_routes@),
            Method::Put => entries_of(self.put_routes@),
            Method::Patch => entries_of(self.patch_routes@),
            Method::Delete => entries_of(self.delete_routes@),
            Method::Unsupported => Seq::empty(),
        }
    }

    /// `self` with one more registration under `method`, and no other change.
    pub open spec fn registered(
        self,
        before: Self,
        method: Method,
        route: Seq<char>,
        handler: EitherHandler<S, A>,
    ) -> bool {
        &&& self.routes(method) == before.routes(method).push((route, handler))
        &&& forall|m: Method| m != method ==> self.routes(m) == before.routes(m)
    }

    /// A router without routes.
    pub fn new() -> (r: Self)
        ensures
            forall|m: Method| r.routes(m) == Seq::<(Seq<char>, EitherHandler<S, A>)>::empty(),
    {
        let r = Router {
            get_routes: Vec::new(),
            post_routes: Vec::new(),
            put_routes: Vec::new(),
            delete_routes: Vec::new(),
            patch_routes: Vec::new(),
        };
        assert forall|m: Method| r.routes(m) == Seq::<(Seq<char>, EitherHandler<S, A>)>::empty() by {
            assert(r.routes(m) =~= Seq::<(Seq<char>, EitherHandler<S, A>)>::empty());
        }
        r
    }

    /// Registers a handler under a method. Of two registrations under one
    /// method and path the later one counts. Nothing is registered under a
    /// method that is not supported.
    pub fn register(&mut self, method: Method, route: &str, handler: EitherHandler<S, A>)
        ensures
            method != Method::Unsupported ==> final(self).registered(
                *old(self),
                method,
                route@,
                handler,
            ),
            method == Method::Unsupported ==> forall|m: Method|
                final(self).routes(m) == old(self).routes(m),
    {
        let entry = (route.to_owned(), handler);
        match method {
            Method::Get => {
                self.get_routes.push(entry);
                assert(self.routes(method) =~= old(self).routes(method).push((route@, handler)));
            },
            Method::Post => {
                self.post_routes.push(entry);
                assert(self.routes(method) =~= old(self).routes(method).push((route@, handler)));
            },
            Method::Put => {
                self.put_routes.push(entry);
                assert(self.routes(method) =~= old(self).routes(method).push((route@, handler)));
            },
            Method::Patch => {
                self.patch_routes.push(entry);
                assert(self.routes(method) =~= old(self).routes(method).push((route@, handler)));
            },
            Method::Delete => {
                self.delete_routes.push(entry);
                assert(self.routes(method) =~= old(self).routes(method).push((route@, handler)));
            },
            Method::Unsupported => {},
        }
    }

    /// Registers a handler for `GET`.
    pub fn get(&mut self, route: &str, handler: S)
        ensures
            final(self).registered(*old(self), Method::Get, route@, EitherHandler::Sync(handler)),
    {
        self.register(Method::Get, route, EitherHandler::Sync(handler));
    }

    /// Registers an awaited handler for `GET`.
    pub fn get_async(&mut self, route: &str, handler: A)
        ensures
            final(self).registered(*old(self), Method::Get, route@, EitherHandler::Async(handler)),
    {
        self.register(Method::Get, route, EitherHandler::Async(handler));
    }

    /// Registers a handler for `POST`.
    pub fn post(&mut self, route: &str, handler: S)
        ensures
            final(self).registered(*old(self), Method::Post, route@, EitherHandler::Sync(handler)),
    {
        self.register(Method::Post, route, EitherHandler::Sync(handler));
    }

    /// Registers an awaited handler for `POST`.
    pub fn post_async(&mut self, route: &str, handler: A)
        ensures
            final(self).registered(*old(self), Method::Post, route@, EitherHandler::Async(handler)),
    {
        self.register(Method::Post, route, EitherHandler::Async(handler));
    }

    /// Registers a handler for `PUT`.
    pub fn put(&mut self, route: &str, handler: S)
        ensures
            final(self).registered(*old(self), Method::Put, route@, EitherHandler::Sync(handler)),
    {
        self.register(Method::Put, route, EitherHandler::Sync(handler));
    }

    /// Registers an awaited handler for `PUT`.
    pub fn put_async(&mut self, route: &str, handler: A)
        ensures
            final(self).registered(*old(self), Method::Put, route@, EitherHandler::Async(handler)),
    {
        self.register(Method::Put, route, EitherHandler::Async(handler));
    }

    /// Registers a handler for `PATCH`.
    pub fn patch(&mut self, route: &str, handler: S)
        ensures
            final(self).registered(*old(self), Method::Patch, route@, EitherHandler::Sync(handler)),
    {
        self.register(Method::Patch, route, EitherHandler::Sync(handler));
    }

    /// Registers an awaited handler for `PATCH`.
    pub fn patch_async(&mut self, route: &str, handler: A)
        ensures
            final(self).registered(
                *old(self),
                Method::Patch,
                route@,
                EitherHandler::Async(handler),
            ),
    {
        self.register(Method::Patch, route, EitherHandler::Async(handler));
    }

    /// Registers a handler for `DELETE`.
    pub fn delete(&mut self, route: &str, handler: S)
        ensures
            final(self).registered(
                *old(self),
                Method::Delete,
                route@,
                EitherHandler::Sync(handler),
            ),
    {
        self.register(Method::Delete, route, EitherHandler::Sync(handler));
    }

    /// Registers an awaited handler for `DELETE`.
    pub fn delete_async(&mut self, route: &str, handler: A)
        ensures
            final(self).registered(
                *old(self),
                Method::Delete,
                route@,
                EitherHandler::Async(handler),
            ),
    {
        self.register(Method::Delete, route, EitherHandler::Async(handler));
    }

    /// The handler registered for a method and a path, if there is one.
    pub fn resolve(&self, method: Method, path: &str) -> (r: Option<&EitherHandler<S, A>>)
        ensures
            match lookup(self.routes(method), path@) {
                Some(h) => r matches Some(x) && *x == h,
                None => r is None,
            },
    {
        match method {
            Method::Get => find_route(&self.get_routes, path),
            Method::Post => find_route(&self.post_routes, path),
            Method::Put => find_route(&self.put_routes, path),
            Method::Patch => find_route(&self.patch_routes, path),
            Method::Delete => find_route(&self.delete_routes, path),
            Method::Unsupported => None,
        }
    }

    /// Decides what a request gets: the handler registered for exactly its
    /// method and path, with the parameters that the path gives; the fixed
    /// 404 reply where the method is supported and the path has no handler;
    /// the fixed 405 reply where the method is not supported.
    pub fn handle_request(&self, request: &Request) -> (r: Dispatch<'_, S, A>)
        ensures
            decided(self.routes(method_kind(request@.method)), *request, r),
    {
        let method = classify(request.method.as_str());
        match method {
            Method::Unsupported => Dispatch::Reply(handle_method_not_allowed()),
            _ => match self.resolve(method, request.route.as_str()) {
                Some(handler) => Dispatch::Invoke {
                    handler,
                    params: parse_dynamic_url_params(request.route.as_str()),
                },
                None => Dispatch::Reply(handle_not_found()),
            },
        }
    }
}

/// What `handle_request` decides, given the registrations under the
/// request's method.
pub open spec fn decided<S, A>(
    routes: Seq<(Seq<char>, EitherHandler<S, A>)>,
    request: Request,
    r: Dispatch<'_, S, A>,
) -> bool {
    if method_kind(request@.method) == Method::Unsupported {
        r matches Dispatch::Reply(text) && text@ == method_not_allowed_text()
    } else {
        match lookup(routes, request@.route) {
            Some(h) => r matches Dispatch::Invoke { handler, params } && *handler == h && params@
                == assoc_map(segment_params(split(request@.route, '/', 0), 0)),
            None => r matches Dispatch::Reply(text) && text@ == not_found_text(),
        }
    }
}


/// What a request looks like to its handler: the request, with the
/// parameters that its path gives.
pub open spec fn seen_by_handler(request: Request, q: Request) -> bool {
    q@ == (RequestView {
        params: assoc_map(segment_params(split(request@.route, '/', 0), 0)),
        ..request@
    })
}

/// Calls a handler that answers at once and encodes its response. A handler
/// whose answer has to be awaited is not called: the result is `None`.
pub fn execute_handler<S: Fn(&Request) -> Response, A>(
    handler: &EitherHandler<S, A>,
    request: &Request,
) -> (r: Option<String>)
    requires
        handler matches EitherHandler::Sync(h) ==> call_requires(h, (request,)),
    ensures
        match handler {
            EitherHandler::Sync(h) => r matches Some(out) && exists|response: Response|
                call_ensures(h, (request,), response) && out@ == encoded(response@),
            EitherHandler::Async(_) => r is None,
        },
{
    match handler {
        EitherHandler::Sync(h) => {
            let response = h(request);
            Some(handle_ok(&response))
        },
        EitherHandler::Async(_) => None,
    }
}

/// Answers a request as far as that takes no waiting: the encoded response
/// of the handler registered for its method and path, the fixed 404 reply
/// where the path has no handler, the fixed 405 reply where the method is not
/// supported; `None` where the handler's answer has to be awaited.
pub fn respond<S: Fn(&Request) -> Response, A>(router: &Router<S, A>, request: &Request) -> (r:
    Option<String>)
    requires
        lookup(router.routes(method_kind(request@.method)), request@.route) matches Some(
            EitherHandler::Sync(h),
        ) ==> forall|q: &Request| call_requires(h, (q,)),
    ensures
        method_kind(request@.method) == Method::Unsupported ==> (r matches Some(out) && out@
            == method_not_allowed_text()),
        method_kind(request@.method) != Method::Unsupported ==> match lookup(
            router.routes(method_kind(request@.method)),
            request@.route,
        ) {
            None => r matches Some(out) && out@ == not_found_text(),
            Some(EitherHandler::Sync(h)) => r matches Some(out) && exists|
                q: &Request,
                response: Response,
            |
                seen_by_handler(*request, *q) && call_ensures(h, (q,), response) && out@
                    == encoded(response@),
            Some(EitherHandler::Async(_)) => r is None,
        },
{
    match router.handle_request(request) {
        Dispatch::Reply(text) => Some(text),
        Dispatch::Invoke { handler, params } => {
            let seen = request.with_params(params);
            let out = execute_handler(handler, &seen);
            proof {
                if handler is Sync {
                    let h = handler->Sync_0;
                    let response = choose|response: Response|
                        call_ensures(h, (&seen,), response) && out->0@ == encoded(response@);
                    assert(seen_by_handler(*request, seen) && call_ensures(h, (&seen,), response)
                        && out->0@ == encoded(response@));
                }
            }
            out
        },
    }
}

/// The handler registered last under a path is the one that a lookup finds.
pub proof fn lemma_last_registration_wins<H>(
    entries: Seq<(Seq<char>, H)>,
    path: Seq<char>,
    handler: H,
)
    ensures
        lookup(entries.push((path, handler)), path) == Some(handler),
{
}

/// A registration changes no lookup under another path.
pub proof fn lemma_other_paths_unchanged<H>(
    entries: Seq<(Seq<char>, H)>,
    path: Seq<char>,
    handler: H,
    other: Seq<char>,
)
    requires
        other != path,
    ensures
        lookup(entries.push((path, handler)), other) == lookup(entries, other),
{
    assert(entries.push((path, handler)).drop_last() =~= entries);
}

/// A lookup finds a handler exactly when some registration has that very
/// path.
pub proof fn lemma_lookup_exact<H>(entries: Seq<(Seq<char>, H)>, path: Seq<char>)
    ensures
        lookup(entries, path) is Some <==> exists|i: int|
            0 <= i < entries.len() && entries[i].0 == path,
    decreases entries.len(),
{
    if entries.len() > 0 {
        let rest = entries.drop_last();
        lemma_lookup_exact(rest, path);
        if entries.last().0 == path {
            assert(entries[entries.len() - 1].0 == path);
        } else {
            if lookup(rest, path) is Some {
                let i = choose|i: int| 0 <= i < rest.len() && rest[i].0 == path;
                assert(entries[i].0 == path);
            }
            if exists|i: int| 0 <= i < entries.len() && entries[i].0 == path {
                let i = choose|i: int| 0 <= i < entries.len() && entries[i].0 == path;
                assert(rest[i].0 == path);
            }
        }
    }
}

} // verus!
