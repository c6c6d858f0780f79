//! The response that a handler builds.

use vstd::prelude::*;
use vstd::string::*;
use crate::params::{Pairs, Params};
use crate::text::{
    chars_of, lemma_split_nonempty, push_str, split, split_all, string_of, views,
};

verus! {

/// The payload of a response.
#[derive(Clone, Debug)]
pub enum Body {
    /// Text, sent as it is.
    Text(String),
    /// A JSON document that is no string, as its JSON text.
    Json(String),
}

/// A payload as contracts see it.
pub ghost enum BodyView {
    Text(Seq<char>),
    Json(Seq<char>),
}

impl View for Body {
    type V = BodyView;

    open spec fn view(&self) -> BodyView {
        match self {
            Body::Text(s) => BodyView::Text(s@),
            Body::Json(s) => BodyView::Json(s@),
        }
    }
}

/// A response.
#[derive(Clone, Debug)]
pub struct Response {
    pub content_type: String,
    pub status_text: String,
    pub status: i64,
    pub body: Body,
    pub cookies: Params,
    pub is_file: bool,
}

/// A response as contracts see it. The cookies stand in the order in which
/// their names first came.
pub ghost struct ResponseView {
    pub content_type: Seq<char>,
    pub status_text: Seq<char>,
    pub status: i64,
    pub body: BodyView,
    pub cookies: Pairs,
    pub is_file: bool,
}

impl View for Response {
    type V = ResponseView;

    open spec fn view(&self) -> ResponseView {
        ResponseView {
            content_type: self.content_type@,
            status_text: self.status_text@,
            status: self.status,
            body: self.body@,
            cookies: self.cookies.pairs(),
            is_file: self.is_file,
        }
    }
}

/// What came of reading the file that a response is to carry.
#[derive(Clone, Debug)]
pub enum FileRead {
    /// The file is UTF-8 text.
    Text(String),
    /// The file is not UTF-8: its bytes.
    Binary(Vec<u8>),
    /// The file could not be read.
    Failed,
}

/// The standard base64 form of bytes, with padding, as the crate `base64`
/// computes it.
pub uninterp spec fn base64_standard(bytes: Seq<u8>) -> Seq<char>;

/// Calls `encode` of `base64`'s `STANDARD` engine, which panics where the
/// length of the result does not fit in `usize`: the length bound keeps it
/// within. The result has four characters for every three bytes begun.
#[verifier::external_body]
fn base64_text(bytes: &Vec<u8>) -> (r: String)
    requires
        bytes@.len() <= usize::MAX / 2,
    ensures
        r@ == base64_standard(bytes@),
        r@.len() == (bytes@.len() + 2) / 3 * 4,
{
    base64::Engine::encode(&base64::prelude::BASE64_STANDARD, bytes)
}

/// The content type that `mime_guess` has first for a file extension, which
/// it looks up without regard to case; `application/octet-stream` for one
/// that it does not know.
pub uninterp spec fn guessed_type(extension: Seq<char>) -> Seq<char>;

/// Calls `mime_guess::from_ext` and takes the first guess, or
/// `application/octet-stream`. For the empty extension the crate makes no
/// guess.
#[verifier::external_body]
fn guess_content_type(extension: &str) -> (r: String)
    ensures
        r@ == guessed_type(extension@),
        r@ == "application/octet-stream"@ || extension@.len() > 0,
{
    mime_guess::from_ext(extension).first_or_octet_stream().to_string()
}

/// The extension of a file name: what stands after its last `.`. A name
/// without `.` has none, nor has one whose only `.` is its first character.
pub open spec fn extension(name: Seq<char>) -> Seq<char> {
    let pieces = split(name, '.', 0);
    if pieces.len() < 2 || (pieces.len() == 2 && pieces[0].len() == 0) {
        Seq::empty()
    } else {
        pieces.last()
    }
}

/// The content type of the file at `path`: the guess for the extension of
/// its name.
pub open spec fn content_type_of(path: Seq<char>) -> Seq<char> {
    guessed_type(extension(file_name(path)))
}

/// The name of the file at `path`: what stands after the last `/`.
pub open spec fn file_name(path: Seq<char>) -> Seq<char> {
    split(path, '/', 0).last()
}

/// The text that stands for a file's content: the text itself, the base64
/// form of bytes that are no text, nothing for a file that could not be read.
pub open spec fn file_content(file: FileRead) -> Seq<char> {
    match file {
        FileRead::Text(s) => s@,
        FileRead::Binary(b) => base64_standard(b@),
        FileRead::Failed => Seq::empty(),
    }
}

/// The payload of a file response: the file's name, a colon and the content.
pub open spec fn stored_text(name: Seq<char>, content: Seq<char>) -> Seq<char> {
    name + seq![':'] + content
}

/// The response that carries a file: its payload is the file's name, a colon
/// and the content.
pub open spec fn file_response(
    cookies: Pairs,
    path: Seq<char>,
    content_type: Seq<char>,
    content: Seq<char>,
    status: i64,
) -> ResponseView {
    ResponseView {
        content_type,
        status_text: "OK"@,
        status,
        body: BodyView::Text(stored_text(file_name(path), content)),
        cookies,
        is_file: true,
    }
}

impl Response {
    /// An empty text response with status 200.
    pub fn new() -> (r: Response)
        ensures
            r@ == (ResponseView {
                content_type: "text/plain"@,
                status_text: "OK"@,
                status: 200,
                body: BodyView::Text(Seq::empty()),
                cookies: Seq::empty(),
                is_file: false,
            }),
    {
        Response {
            content_type: "text/plain".to_owned(),
            status_text: "OK".to_owned(),
            status: 200,
            body: Body::Text(String::new()),
            cookies: Params::new(),
            is_file: false,
        }
    }

    /// A text response with this response's cookies.
    pub fn text(&self, body: &str, status: i64) -> (r: Response)
        ensures
            r@ == (ResponseView {
                content_type: "text/plain"@,
                status_text: "OK"@,
                status,
                body: BodyView::Text(body@),
                cookies: self@.cookies,
                is_file: false,
            }),
    {
        Response {
            content_type: "text/plain".to_owned(),
            status_text: "OK".to_owned(),
            status,
            body: Body::Text(body.to_owned()),
            cookies: self.cookies.copy(),
            is_file: false,
        }
    }

    /// A JSON response with this response's cookies.
    pub fn json(&self, body: Body, status: i64) -> (r: Response)
        ensures
            r@ == (ResponseView {
                content_type: "application/json"@,
                status_text: "OK"@,
                status,
                body: body@,
                cookies: self@.cookies,
                is_file: false,
            }),
    {
        Response {
            content_type: "application/json".to_owned(),
            status_text: "OK".to_owned(),
            status,
            body,
            cookies: self.cookies.copy(),
            is_file: false,
        }
    }

    /// An error response with this response's cookies.
    pub fn error(&self, body: &str, status: i64) -> (r: Response)
        ensures
            r@ == (ResponseView {
                content_type: "text/plain"@,
                status_text: "Internal Server Error"@,
                status,
                body: BodyView::Text(body@),
                cookies: self@.cookies,
                is_file: false,
            }),
    {
        Response {
            content_type: "text/plain".to_owned(),
            status_text: "Internal Server Error".to_owned(),
            status,
            body: Body::Text(body.to_owned()),
            cookies: self.cookies.copy(),
            is_file: false,
        }
    }

    /// The text that stands for a file's content. Bytes that are no text
    /// give four characters for every three bytes begun.
    pub fn content_of(file: &FileRead) -> (r: String)
        requires
            file matches FileRead::Binary(b) ==> b@.len() <= usize::MAX / 2,
        ensures
            r@ == file_content(*file),
            file matches FileRead::Binary(b) ==> r@.len() == (b@.len() + 2) / 3 * 4,
    {
        match file {
            FileRead::Text(s) => s.clone(),
            FileRead::Binary(b) => base64_text(b),
            FileRead::Failed => String::new(),
        }
    }

    /// The name of the file at `path`.
    pub fn base_name(path: &str) -> (r: String)
        ensures
            r@ == file_name(path@),
    {
        let p = chars_of(path);
        let segments = split_all(&p, '/');
        proof {
            lemma_split_nonempty(path@, '/', 0);
        }
        let name = &segments[segments.len() - 1];
        assert(name@ == views(segments@)[segments@.len() - 1]);
        assert(name@.subrange(0, name@.len() as int) =~= name@);
        string_of(name, 0, name.len())
    }

    /// The extension of a file name.
    pub fn extension_of(name: &str) -> (r: String)
        ensures
            r@ == extension(name@),
    {
        let n = chars_of(name);
        let pieces = split_all(&n, '.');
        proof {
            lemma_split_nonempty(name@, '.', 0);
            assert(views(pieces@)[0] == pieces@[0]@);
        }
        if pieces.len() < 2 || (pieces.len() == 2 && pieces[0].len() == 0) {
            String::new()
        } else {
            let last = &pieces[pieces.len() - 1];
            assert(last@ == views(pieces@)[pieces@.len() - 1]);
            assert(last@.subrange(0, last@.len() as int) =~= last@);
            string_of(last, 0, last.len())
        }
    }

    /// A file response of a given content type, with this response's cookies.
    pub fn file_with_type(&self, path: &str, content_type: String, content: &str, status: i64) -> (r:
        Response)
        ensures
            r@ == file_response(self@.cookies, path@, content_type@, content@, status),
    {
        let name = Response::base_name(path);
        let mut payload: Vec<char> = Vec::new();
        push_str(&mut payload, name.as_str());
        payload.push(':');
        push_str(&mut payload, content);
        assert(payload@ =~= file_name(path@) + seq![':'] + content@);
        assert(payload@.subrange(0, payload@.len() as int) =~= payload@);
        Response {
            content_type,
            status_text: "OK".to_owned(),
            status,
            body: Body::Text(string_of(&payload, 0, payload.len())),
            cookies: self.cookies.copy(),
            is_file: true,
        }
    }

    /// A response that carries the file at `path`, given what came of reading
    /// it. The content type is the guess for the extension of the file's
    /// name.
    pub fn send_file(&self, path: &str, file: &FileRead, status: i64) -> (r: Response)
        requires
            file matches FileRead::Binary(b) ==> b@.len() <= usize::MAX / 2,
        ensures
            r@ == file_response(
                self@.cookies,
                path@,
                content_type_of(path@),
                file_content(*file),
                status,
            ),
            extension(file_name(path@)).len() == 0 ==> r@.content_type
                == "application/octet-stream"@,
    {
        let content = Response::content_of(file);
        let name = Response::base_name(path);
        let ext = Response::extension_of(name.as_str());
        let content_type = guess_content_type(ext.as_str());
        self.file_with_type(path, content_type, content.as_str(), status)
    }

    /// `send_file` for any file: `None` where the file holds more bytes than
    /// can be written as base64 on this machine.
    pub fn try_send_file(&self, path: &str, file: &FileRead, status: i64) -> (r: Option<Response>)
        ensures
            r is Some == (file matches FileRead::Binary(b) ==> b@.len() <= usize::MAX / 2),
            r matches Some(response) ==> response@ == file_response(
                self@.cookies,
                path@,
                content_type_of(path@),
                file_content(*file),
                status,
            ),
    {
        let fits = match file {
            FileRead::Binary(b) => b.len() <= usize::MAX / 2,
            _ => true,
        };
        if fits {
            Some(self.send_file(path, file, status))
        } else {
            None
        }
    }
}

} // verus!
