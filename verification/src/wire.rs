//! HTTP/1.1 as `WebDAV` uses it: one request, one response, each a head and
//! a body whose length the head already said. The little XML that
//! PROPFIND and LOCK carry is read in `xml`.
//!
//! Content-Length only. Nothing here chunks, and a message that arrives
//! chunked is refused rather than misread.

use vstd::prelude::*;
use vstd::slice::{slice_subrange, slice_to_vec};
use vstd::string::StringExecFns;
use vstd::utf8::encode_utf8;
use crate::error::{joined, protocol, protocol_error, ErrorView, TransportError};
use crate::text::{
    chars_of, contains_letters, decimal, decimal_of, find_char, first_word, from_utf8_lossy,
    holds_letters, number, number_of, same, same_chars, same_ignoring_case, same_letters,
    split_first, split_word, string_of, text_of, trim, trim_of, Class,
};

verus! {

// ---------------------------------------------------------------------
// Headers
// ---------------------------------------------------------------------

/// The views of a run of headers.
pub open spec fn header_views(headers: Seq<(String, String)>) -> Seq<(Seq<char>, Seq<char>)> {
    headers.map_values(|h: (String, String)| (h.0@, h.1@))
}

/// The value of the first header called `name`, however it was capitalised.
pub open spec fn value_of(headers: Seq<(Seq<char>, Seq<char>)>, name: Seq<char>) -> Option<
    Seq<char>,
>
    decreases headers.len(),
{
    if headers.len() == 0 {
        None
    } else if same_letters(headers[0].0, name) {
        Some(headers[0].1)
    } else {
        value_of(headers.skip(1), name)
    }
}

/// The value of the first header called `name`, however it was capitalised.
fn find<'a>(headers: &'a Vec<(String, String)>, name: &str) -> (res: Option<&'a str>)
    ensures
        match res {
            Some(value) => value_of(header_views(headers@), name@) == Some(value@),
            None => value_of(header_views(headers@), name@) is None,
        },
{
    let ghost views = header_views(headers@);
    let mut i: usize = 0;
    proof {
        assert(views.skip(0) == views);
    }
    while i < headers.len()
        invariant
            i <= headers.len(),
            views == header_views(headers@),
            value_of(views, name@) == value_of(views.skip(i as int), name@),
        decreases headers.len() - i,
    {
        proof {
            assert(views.skip(i as int)[0] == (headers@[i as int].0@, headers@[i as int].1@));
            assert(views.skip(i as int).skip(1) == views.skip(i + 1));
        }
        if same_ignoring_case(headers[i].0.as_str(), name) {
            return Some(headers[i].1.as_str());
        }
        i += 1;
    }
    None
}

/// One more header after those already there.
fn push_header(headers: &mut Vec<(String, String)>, name: &str, value: &str)
    ensures
        header_views(final(headers)@) == header_views(old(headers)@).push((name@, value@)),
{
    headers.push((name.to_owned(), value.to_owned()));
    proof {
        assert(header_views(headers@) == header_views(old(headers)@).push((name@, value@)));
    }
}

// ---------------------------------------------------------------------
// Requests and responses
// ---------------------------------------------------------------------

/// One request, either side of the wire.
#[derive(Clone, Debug, PartialEq, Eq)]
pub struct Request {
    pub method: String,
    pub path: String,
    pub headers: Vec<(String, String)>,
    pub body: Vec<u8>,
}

/// A [`Request`] as sequences.
pub struct RequestView {
    pub method: Seq<char>,
    pub path: Seq<char>,
    pub headers: Seq<(Seq<char>, Seq<char>)>,
    pub body: Seq<u8>,
}

impl View for Request {
    type V = RequestView;

    open spec fn view(&self) -> RequestView {
        RequestView {
            method: self.method@,
            path: self.path@,
            headers: header_views(self.headers@),
            body: self.body@,
        }
    }
}

impl RequestView {
    /// `method` on `path`, nothing else.
    pub open spec fn plain(method: Seq<char>, path: Seq<char>) -> RequestView {
        RequestView { method, path, headers: Seq::empty(), body: Seq::empty() }
    }

    /// With this header too.
    pub open spec fn having(self, name: Seq<char>, value: Seq<char>) -> RequestView {
        RequestView { headers: self.headers.push((name, value)), ..self }
    }

    /// With this body.
    pub open spec fn carrying(self, body: Seq<u8>) -> RequestView {
        RequestView { body, ..self }
    }
}

impl Request {
    /// `method` on `path`, no headers yet.
    #[must_use]
    pub fn new(method: &str, path: &str) -> (res: Self)
        ensures
            res@ == RequestView::plain(method@, path@),
    {
        let res = Request {
            method: method.to_owned(),
            path: path.to_owned(),
            headers: Vec::new(),
            body: Vec::new(),
        };
        proof {
            assert(res@.headers == Seq::<(Seq<char>, Seq<char>)>::empty());
        }
        res
    }

    /// With this header too.
    #[must_use]
    pub fn with_header(self, name: &str, value: &str) -> (res: Self)
        ensures
            res@ == self@.having(name@, value@),
    {
        let mut res = self;
        push_header(&mut res.headers, name, value);
        res
    }

    /// With this body.
    #[must_use]
    pub fn with_body(self, body: &[u8]) -> (res: Self)
        ensures
            res@ == self@.carrying(body@),
    {
        let mut res = self;
        res.body = slice_to_vec(body);
        res
    }

    /// One header's value, however it was capitalised.
    #[must_use]
    pub fn header(&self, name: &str) -> (res: Option<&str>)
        ensures
            match res {
                Some(value) => value_of(self@.headers, name@) == Some(value@),
                None => value_of(self@.headers, name@) is None,
            },
    {
        find(&self.headers, name)
    }
}

/// One response, either side of the wire.
#[derive(Clone, Debug, PartialEq, Eq)]
pub struct Response {
    pub status: u16,
    pub headers: Vec<(String, String)>,
    pub body: Vec<u8>,
}

/// A [`Response`] as sequences.
pub struct ResponseView {
    pub status: u16,
    pub headers: Seq<(Seq<char>, Seq<char>)>,
    pub body: Seq<u8>,
}

impl View for Response {
    type V = ResponseView;

    open spec fn view(&self) -> ResponseView {
        ResponseView {
            status: self.status,
            headers: header_views(self.headers@),
            body: self.body@,
        }
    }
}

impl ResponseView {
    /// `status`, nothing else.
    pub open spec fn plain(status: u16) -> ResponseView {
        ResponseView { status, headers: Seq::empty(), body: Seq::empty() }
    }

    /// With this header too.
    pub open spec fn having(self, name: Seq<char>, value: Seq<char>) -> ResponseView {
        ResponseView { headers: self.headers.push((name, value)), ..self }
    }

    /// With this body.
    pub open spec fn carrying(self, body: Seq<u8>) -> ResponseView {
        ResponseView { body, ..self }
    }
}

/// Whether a status says that the request was carried out.
pub open spec fn succeeded(status: u16) -> bool {
    200 <= status < 300
}

/// Whether a request that was refused with this status is worth repeating:
/// the server failed, timed out or was busy, or somebody holds the resource
/// now and will let go.
pub open spec fn worth_repeating(status: u16) -> bool {
    500 <= status < 600 || status == 408 || status == 423 || status == 429
}

/// Whether a request that was refused with this status is worth repeating.
pub fn is_worth_repeating(status: u16) -> (res: bool)
    ensures
        res == worth_repeating(status),
{
    (500 <= status && status < 600) || status == 408 || status == 423 || status == 429
}

impl Response {
    /// `status`, no headers, no body.
    #[must_use]
    pub fn new(status: u16) -> (res: Self)
        ensures
            res@ == ResponseView::plain(status),
    {
        let res = Response { status, headers: Vec::new(), body: Vec::new() };
        proof {
            assert(res@.headers == Seq::<(Seq<char>, Seq<char>)>::empty());
        }
        res
    }

    /// With this header too.
    #[must_use]
    pub fn with_header(self, name: &str, value: &str) -> (res: Self)
        ensures
            res@ == self@.having(name@, value@),
    {
        let mut res = self;
        push_header(&mut res.headers, name, value);
        res
    }

    /// With this body.
    #[must_use]
    pub fn with_body(self, body: &[u8]) -> (res: Self)
        ensures
            res@ == self@.carrying(body@),
    {
        let mut res = self;
        res.body = slice_to_vec(body);
        res
    }

    /// One header's value, however it was capitalised.
    #[must_use]
    pub fn header(&self, name: &str) -> (res: Option<&str>)
        ensures
            match res {
                Some(value) => value_of(self@.headers, name@) == Some(value@),
                None => value_of(self@.headers, name@) is None,
            },
    {
        find(&self.headers, name)
    }

    /// `Ok` for a 2xx, else the failure with its judgement: 5xx, 408 and
    /// 429 are worth repeating, as is 423 Locked — somebody holds the
    /// resource now and will let go. The rest is ours and will not change.
    ///
    /// # Errors
    /// Any status outside 2xx.
    pub fn judge(&self) -> (res: Result<(), TransportError>)
        ensures
            res is Ok <==> succeeded(self.status),
            res matches Err(error) ==> error@ == (ErrorView {
                message: "the server answered "@ + decimal(self.status as nat),
                retryable: worth_repeating(self.status),
            }),
    {
        let code = self.status;
        if code >= 200 && code < 300 {
            return Ok(());
        }
        Err(
            TransportError {
                message: joined("the server answered ", decimal_of(code as u64).as_str()),
                retryable: is_worth_repeating(code),
            },
        )
    }
}

/// The phrase a status is written with.
pub open spec fn reason_text(status: u16) -> Seq<char> {
    if status == 200 {
        "OK"@
    } else if status == 201 {
        "Created"@
    } else if status == 204 {
        "No Content"@
    } else if status == 207 {
        "Multi-Status"@
    } else if status == 400 {
        "Bad Request"@
    } else if status == 403 {
        "Forbidden"@
    } else if status == 404 {
        "Not Found"@
    } else if status == 405 {
        "Method Not Allowed"@
    } else if status == 409 {
        "Conflict"@
    } else if status == 423 {
        "Locked"@
    } else {
        "Unknown"@
    }
}

/// The phrase a status is written with.
#[must_use]
pub fn reason(status: u16) -> (res: &'static str)
    ensures
        res@ == reason_text(status),
{
    match status {
        200 => "OK",
        201 => "Created",
        204 => "No Content",
        207 => "Multi-Status",
        400 => "Bad Request",
        403 => "Forbidden",
        404 => "Not Found",
        405 => "Method Not Allowed",
        409 => "Conflict",
        423 => "Locked",
        _ => "Unknown",
    }
}

// ---------------------------------------------------------------------
// Writing
// ---------------------------------------------------------------------

/// One header as a line of the head.
pub open spec fn header_line(header: (Seq<char>, Seq<char>)) -> Seq<char> {
    header.0 + ": "@ + header.1 + "\r\n"@
}

/// A run of headers as lines of the head.
pub open spec fn header_block(headers: Seq<(Seq<char>, Seq<char>)>) -> Seq<char>
    decreases headers.len(),
{
    if headers.len() == 0 {
        Seq::empty()
    } else {
        header_block(headers.drop_last()) + header_line(headers.last())
    }
}

/// The head: its first line, every header, the length, the blank line.
pub open spec fn head_text(
    first: Seq<char>,
    headers: Seq<(Seq<char>, Seq<char>)>,
    length: nat,
) -> Seq<char> {
    first + "\r\n"@ + header_block(headers) + "Content-Length: "@ + decimal(length)
        + "\r\n\r\n"@
}

/// The bytes of a request to `authority`.
pub open spec fn request_bytes(authority: Seq<char>, request: RequestView) -> Seq<u8> {
    let first = request.method + " "@ + request.path + " HTTP/1.1\r\nHost: "@ + authority;
    encode_utf8(head_text(first, request.headers, request.body.len())) + request.body
}

/// The bytes of a response.
pub open spec fn response_bytes(response: ResponseView) -> Seq<u8> {
    let first = "HTTP/1.1 "@ + decimal(response.status as nat) + " "@ + reason_text(
        response.status,
    );
    encode_utf8(head_text(first, response.headers, response.body.len())) + response.body
}

/// The head: its first line, every header, the length, the blank line.
fn head(first: &str, headers: &Vec<(String, String)>, length: usize) -> (res: String)
    ensures
        res@ == head_text(first@, header_views(headers@), length as nat),
{
    let ghost views = header_views(headers@);
    let mut out = joined(first, "\r\n");
    let mut i: usize = 0;
    while i < headers.len()
        invariant
            i <= headers.len(),
            views == header_views(headers@),
            out@ == first@ + "\r\n"@ + header_block(views.take(i as int)),
        decreases headers.len() - i,
    {
        let ghost before = out@;
        out.append(headers[i].0.as_str());
        out.append(": ");
        out.append(headers[i].1.as_str());
        out.append("\r\n");
        proof {
            assert(views.take(i + 1).drop_last() == views.take(i as int));
            assert(views.take(i + 1).last() == (headers@[i as int].0@, headers@[i as int].1@));
            assert(out@ == before + header_line(views[i as int]));
        }
        i += 1;
    }
    proof {
        assert(views.take(i as int) == views);
    }
    out.append("Content-Length: ");
    out.append(decimal_of(length as u64).as_str());
    out.append("\r\n\r\n");
    out
}

/// A head and the body it speaks of.
fn write(head: &str, body: &Vec<u8>) -> (res: Vec<u8>)
    ensures
        res@ == encode_utf8(head@) + body@,
{
    let mut out = slice_to_vec(head.as_bytes());
    let mut rest = slice_to_vec(body.as_slice());
    out.append(&mut rest);
    out
}

/// `request` to `authority`, as bytes, with the length its body has.
pub fn write_request(authority: &str, request: &Request) -> (res: Vec<u8>)
    ensures
        res@ == request_bytes(authority@, request@),
{
    let mut first = joined(request.method.as_str(), " ");
    first.append(request.path.as_str());
    first.append(" HTTP/1.1\r\nHost: ");
    first.append(authority);
    let head = head(first.as_str(), &request.headers, request.body.len());
    write(head.as_str(), &request.body)
}

/// `response` as bytes, with the length its body has.
pub fn write_response(response: &Response) -> (res: Vec<u8>)
    ensures
        res@ == response_bytes(response@),
{
    let mut first = joined("HTTP/1.1 ", decimal_of(response.status as u64).as_str());
    first.append(" ");
    first.append(reason(response.status));
    let head = head(first.as_str(), &response.headers, response.body.len());
    write(head.as_str(), &response.body)
}

// ---------------------------------------------------------------------
// Reading
// ---------------------------------------------------------------------

/// Why no message was read.
#[derive(Clone, Debug, PartialEq, Eq)]
pub enum ReadError {
    /// The bytes end before the message does: there is more to come, or the
    /// connection broke.
    Partial,
    /// What arrived is not a message this transport reads.
    Refused(TransportError),
}

/// A [`ReadError`], its message as a sequence of characters.
pub enum ReadErrorView {
    Partial,
    Refused(ErrorView),
}

impl View for ReadError {
    type V = ReadErrorView;

    open spec fn view(&self) -> ReadErrorView {
        match self {
            ReadError::Partial => ReadErrorView::Partial,
            ReadError::Refused(error) => ReadErrorView::Refused(error@),
        }
    }
}

/// Where the first line feed at or after `from` stands.
pub open spec fn line_feed(input: Seq<u8>, from: int) -> Option<int>
    decreases input.len() - from,
{
    if from < 0 || from >= input.len() {
        None
    } else if input[from] == 10 {
        Some(from)
    } else {
        line_feed(input, from + 1)
    }
}

/// A line feed stands at or after the place it was looked for from.
pub proof fn lemma_line_feed(input: Seq<u8>, from: int)
    ensures
        line_feed(input, from) matches Some(at) ==> 0 <= from <= at < input.len(),
    decreases input.len() - from,
{
    if 0 <= from < input.len() {
        lemma_line_feed(input, from + 1);
    }
}

/// The line from `from` to the line feed at `end`, without the carriage
/// return that may stand before it.
pub open spec fn line_bytes(input: Seq<u8>, from: int, end: int) -> Seq<u8> {
    if from < end && input[end - 1] == 13 {
        input.subrange(from, end - 1)
    } else {
        input.subrange(from, end)
    }
}

/// The lines of a head, up to and without the blank one, and the offset
/// after it; none where the blank line has not come yet.
pub open spec fn head_from(input: Seq<u8>, from: int) -> Option<(Seq<Seq<char>>, int)>
    decreases input.len() - from,
{
    proof {
        lemma_line_feed(input, from);
    }
    match line_feed(input, from) {
        None => None,
        Some(end) => {
            let line = line_bytes(input, from, end);
            if line.len() == 0 {
                Some((Seq::empty(), end + 1))
            } else {
                match head_from(input, end + 1) {
                    None => None,
                    Some((lines, after)) => Some((seq![text_of(line)] + lines, after)),
                }
            }
        },
    }
}

/// A head ends after the place it was looked for from.
pub proof fn lemma_head_from(input: Seq<u8>, from: int)
    ensures
        head_from(input, from) matches Some(found) ==> 0 <= from < found.1 <= input.len(),
    decreases input.len() - from,
{
    lemma_line_feed(input, from);
    if let Some(end) = line_feed(input, from) {
        if line_bytes(input, from, end).len() > 0 {
            lemma_head_from(input, end + 1);
        }
    }
}

/// The headers that these lines write: each line with a colon in it, its
/// name before and its value after, both trimmed.
pub open spec fn headers_in(lines: Seq<Seq<char>>) -> Seq<(Seq<char>, Seq<char>)>
    decreases lines.len(),
{
    if lines.len() == 0 {
        Seq::empty()
    } else {
        match split_first(lines.last(), ':') {
            None => headers_in(lines.drop_last()),
            Some((name, value)) => headers_in(lines.drop_last()).push(
                (trim(name, Class::White), trim(value, Class::White)),
            ),
        }
    }
}

/// The length of the body that these headers announce. The name of a coding
/// is read whatever its case.
pub open spec fn body_length(headers: Seq<(Seq<char>, Seq<char>)>, limit: nat) -> Result<
    nat,
    ErrorView,
> {
    if value_of(headers, "transfer-encoding"@) matches Some(coding) && holds_letters(
        coding,
        "chunked"@,
    ) {
        Err(protocol("a chunked body, which this transport does not read"@))
    } else {
        match value_of(headers, "content-length"@) {
            None => Ok(0),
            Some(value) => match number(value, usize::MAX as nat) {
                None => Err(protocol("a content-length that is not a number: "@ + value)),
                Some(length) => if length > limit {
                    Err(
                        protocol(
                            "a body of "@ + decimal(length) + " bytes, over the "@ + decimal(limit)
                                + " byte limit"@,
                        ),
                    )
                } else {
                    Ok(length)
                },
            },
        }
    }
}

/// The length of the body of a request with this method, where `follows` says
/// whether anything follows its head. What follows the head of a PUT is its
/// body, and is announced; where nothing follows, the body is empty.
pub open spec fn request_length(
    method: Seq<char>,
    headers: Seq<(Seq<char>, Seq<char>)>,
    follows: bool,
    limit: nat,
) -> Result<nat, ErrorView> {
    match body_length(headers, limit) {
        Err(error) => Err(error),
        Ok(length) => if method == "PUT"@ && follows && value_of(
            headers,
            "content-length"@,
        ) is None {
            Err(protocol("a body whose length is missing"@))
        } else {
            Ok(length)
        },
    }
}

/// The `length` bytes of body after `at`, and the offset after them.
pub open spec fn body_at(input: Seq<u8>, at: int, length: Result<nat, ErrorView>) -> Result<
    (Seq<u8>, int),
    ReadErrorView,
> {
    match length {
        Err(error) => Err(ReadErrorView::Refused(error)),
        Ok(n) => if n > input.len() - at {
            Err(ReadErrorView::Partial)
        } else {
            Ok((input.subrange(at, at + n), at + n))
        },
    }
}

/// The method and the path that a request line names: it is these two words
/// and `HTTP/1.1`, and nothing more.
pub open spec fn request_line(line: Seq<char>) -> Option<(Seq<char>, Seq<char>)> {
    match first_word(line) {
        None => None,
        Some((method, rest)) => match first_word(rest) {
            None => None,
            Some((path, rest)) => match first_word(rest) {
                None => None,
                Some((version, rest)) => if version == "HTTP/1.1"@ && first_word(rest) is None {
                    Some((method, path))
                } else {
                    None
                },
            },
        },
    }
}

/// The status that a status line names: its second word.
pub open spec fn status_line(line: Seq<char>) -> Option<nat> {
    match first_word(line) {
        None => None,
        Some((_, rest)) => match first_word(rest) {
            None => None,
            Some((code, _)) => number(code, u16::MAX as nat),
        },
    }
}

/// The request whose head has these lines and ends at `at`, and its length;
/// none where the peer closed in place of a head.
pub open spec fn request_after(head: Seq<Seq<char>>, input: Seq<u8>, at: int, limit: nat) -> Result<
    Option<(RequestView, int)>,
    ReadErrorView,
> {
    if head.len() == 0 {
        Ok(None)
    } else {
        match request_line(head[0]) {
            None => Err(
                ReadErrorView::Refused(protocol("a request line Xmip cannot read: "@ + head[0])),
            ),
            Some((method, path)) => {
                let headers = headers_in(head.skip(1));
                let length = request_length(method, headers, at < input.len(), limit);
                match body_at(input, at, length) {
                    Err(error) => Err(error),
                    Ok((body, after)) => Ok(
                        Some((RequestView { method, path, headers, body }, after)),
                    ),
                }
            },
        }
    }
}

/// The request at the start of `input`, and its length; none where the peer
/// closed between requests.
pub open spec fn request_in(input: Seq<u8>, limit: nat) -> Result<
    Option<(RequestView, int)>,
    ReadErrorView,
> {
    match head_from(input, 0) {
        None => if input.len() == 0 {
            Ok(None)
        } else {
            Err(ReadErrorView::Partial)
        },
        Some((head, at)) => request_after(head, input, at, limit),
    }
}

/// How a connection fails that closes in place of an answer.
pub open spec fn closed_early() -> ReadErrorView {
    ReadErrorView::Refused(protocol("the server closed without answering"@))
}

/// The response whose head has these lines and ends at `at`, and its length.
pub open spec fn response_after(
    head: Seq<Seq<char>>,
    input: Seq<u8>,
    at: int,
    limit: nat,
) -> Result<(ResponseView, int), ReadErrorView> {
    if head.len() == 0 {
        Err(closed_early())
    } else {
        match status_line(head[0]) {
            None => Err(
                ReadErrorView::Refused(protocol("a status line Xmip cannot read: "@ + head[0])),
            ),
            Some(status) => {
                let headers = headers_in(head.skip(1));
                let length = if status == 204 || status == 304 {
                    Ok(0)
                } else {
                    body_length(headers, limit)
                };
                match body_at(input, at, length) {
                    Err(error) => Err(error),
                    Ok((body, after)) => Ok(
                        (ResponseView { status: status as u16, headers, body }, after),
                    ),
                }
            },
        }
    }
}

/// The response at the start of `input`, and its length.
pub open spec fn response_in(input: Seq<u8>, limit: nat) -> Result<
    (ResponseView, int),
    ReadErrorView,
> {
    match head_from(input, 0) {
        None => if input.len() == 0 {
            Err(closed_early())
        } else {
            Err(ReadErrorView::Partial)
        },
        Some((head, at)) => response_after(head, input, at, limit),
    }
}

/// The views of a run of lines.
pub open spec fn line_views(lines: Seq<String>) -> Seq<Seq<char>> {
    lines.map_values(|l: String| l@)
}

/// The lines of the head at the start of `input`, and the offset after the
/// blank line that ends it.
fn read_head(input: &[u8]) -> (res: Option<(Vec<String>, usize)>)
    ensures
        match res {
            Some(found) => head_from(input@, 0) == Some((line_views(found.0@), found.1 as int))
                && found.1 <= input.len(),
            None => head_from(input@, 0) is None,
        },
{
    let mut lines: Vec<String> = Vec::new();
    let mut from: usize = 0;
    let mut at: usize = 0;
    proof {
        assert(line_views(lines@) == Seq::<Seq<char>>::empty());
        if let Some((rest, after)) = head_from(input@, 0) {
            assert(line_views(lines@) + rest == rest);
        }
    }
    while at < input.len()
        invariant
            from <= at <= input.len(),
            line_feed(input@, from as int) == line_feed(input@, at as int),
            match head_from(input@, from as int) {
                Some((rest, after)) => head_from(input@, 0) == Some(
                    (line_views(lines@) + rest, after),
                ),
                None => head_from(input@, 0) is None,
            },
        decreases input.len() - at,
    {
        if input[at] == 10 {
            let end: usize = if from < at && input[at - 1] == 13 {
                at - 1
            } else {
                at
            };
            if end == from {
                proof {
                    assert(line_views(lines@) + Seq::<Seq<char>>::empty() == line_views(lines@));
                }
                return Some((lines, at + 1));
            }
            let line = from_utf8_lossy(slice_subrange(input, from, end));
            let ghost before = lines@;
            proof {
                assert(line_views(before.push(line)) == line_views(before).push(line@));
                if let Some((rest, after)) = head_from(input@, at + 1) {
                    assert(line_views(before) + (seq![line@] + rest) == line_views(before).push(
                        line@,
                    ) + rest);
                }
            }
            lines.push(line);
            from = at + 1;
        }
        at += 1;
    }
    None
}

/// The headers that the lines after the first write.
fn headers(head: &Vec<String>) -> (res: Vec<(String, String)>)
    requires
        head.len() > 0,
    ensures
        header_views(res@) == headers_in(line_views(head@).skip(1)),
{
    let ghost lines = line_views(head@).skip(1);
    let mut out: Vec<(String, String)> = Vec::new();
    let mut i: usize = 1;
    proof {
        assert(header_views(out@) == Seq::<(Seq<char>, Seq<char>)>::empty());
    }
    while i < head.len()
        invariant
            1 <= i <= head.len(),
            lines == line_views(head@).skip(1),
            header_views(out@) == headers_in(lines.take(i - 1)),
        decreases head.len() - i,
    {
        let line = chars_of(head[i].as_str());
        proof {
            assert(lines.take(i as int).drop_last() == lines.take(i - 1));
            assert(lines.take(i as int).last() == line@);
        }
        match find_char(line.as_slice(), ':', 0) {
            None => {},
            Some(at) => {
                let name = slice_subrange(line.as_slice(), 0, at);
                let value = slice_subrange(line.as_slice(), at + 1, line.len());
                proof {
                    assert(name@ == line@.take(at as int));
                    assert(value@ == line@.skip(at + 1));
                }
                let name = string_of(trim_of(name, Class::White));
                let value = string_of(trim_of(value, Class::White));
                push_header(&mut out, name.as_str(), value.as_str());
            },
        }
        i += 1;
    }
    proof {
        assert(lines.take(i - 1) == lines);
    }
    out
}

/// A length, or why there is none.
spec fn length_view(length: Result<usize, TransportError>) -> Result<nat, ErrorView> {
    match length {
        Ok(n) => Ok(n as nat),
        Err(error) => Err(error@),
    }
}

/// The length of the body that these headers announce.
fn length_of(headers: &Vec<(String, String)>, limit: usize) -> (res: Result<usize, TransportError>)
    ensures
        length_view(res) == body_length(header_views(headers@), limit as nat),
{
    if let Some(coding) = find(headers, "transfer-encoding") {
        let coding = chars_of(coding);
        let chunked = chars_of("chunked");
        if contains_letters(coding.as_slice(), chunked.as_slice()) {
            return Err(
                protocol_error("a chunked body, which this transport does not read".to_owned()),
            );
        }
    }
    let value = match find(headers, "content-length") {
        None => {
            return Ok(0);
        },
        Some(value) => value,
    };
    let digits = chars_of(value);
    match number_of(digits.as_slice(), usize::MAX as u64) {
        None => Err(
            protocol_error(joined("a content-length that is not a number: ", value)),
        ),
        Some(length) => {
            if length > limit as u64 {
                let mut message = joined("a body of ", decimal_of(length).as_str());
                message.append(" bytes, over the ");
                message.append(decimal_of(limit as u64).as_str());
                message.append(" byte limit");
                Err(protocol_error(message))
            } else {
                Ok(length as usize)
            }
        },
    }
}

/// The length of the body of a request with this method, where `follows` says
/// whether anything follows its head.
fn request_length_of(
    method: &str,
    headers: &Vec<(String, String)>,
    follows: bool,
    limit: usize,
) -> (res: Result<usize, TransportError>)
    ensures
        length_view(res) == request_length(
            method@,
            header_views(headers@),
            follows,
            limit as nat,
        ),
{
    match length_of(headers, limit) {
        Err(error) => Err(error),
        Ok(length) => {
            if follows && same(method, "PUT") && find(headers, "content-length").is_none() {
                Err(protocol_error("a body whose length is missing".to_owned()))
            } else {
                Ok(length)
            }
        },
    }
}

/// The body after `at` of this length, and the offset after it.
fn read_body(input: &[u8], at: usize, length: Result<usize, TransportError>) -> (res: Result<
    (Vec<u8>, usize),
    ReadError,
>)
    requires
        at <= input.len(),
    ensures
        match res {
            Ok(found) => body_at(input@, at as int, length_view(length)) == Ok::<
                (Seq<u8>, int),
                ReadErrorView,
            >((found.0@, found.1 as int)) && at <= found.1 <= input.len(),
            Err(error) => body_at(input@, at as int, length_view(length)) == Err::<
                (Seq<u8>, int),
                ReadErrorView,
            >(error@),
        },
{
    match length {
        Err(error) => Err(ReadError::Refused(error)),
        Ok(length) => {
            if length > input.len() - at {
                Err(ReadError::Partial)
            } else {
                Ok((slice_to_vec(slice_subrange(input, at, at + length)), at + length))
            }
        },
    }
}

/// The method and the path that a request line names.
fn read_request_line(line: &str) -> (res: Option<(String, String)>)
    ensures
        match res {
            Some(words) => request_line(line@) == Some((words.0@, words.1@)),
            None => request_line(line@) is None,
        },
{
    let text = chars_of(line);
    let known = chars_of("HTTP/1.1");
    let (method, rest) = split_word(text.as_slice())?;
    let (path, rest) = split_word(rest)?;
    let (version, rest) = split_word(rest)?;
    if !same_chars(version, known.as_slice()) || split_word(rest).is_some() {
        return None;
    }
    Some((string_of(method), string_of(path)))
}

/// The status that a status line names.
fn read_status_line(line: &str) -> (res: Option<u16>)
    ensures
        match res {
            Some(status) => status_line(line@) == Some(status as nat),
            None => status_line(line@) is None,
        },
{
    let text = chars_of(line);
    let (_, rest) = split_word(text.as_slice())?;
    let (code, _) = split_word(rest)?;
    let status = number_of(code, u16::MAX as u64)?;
    Some(status as u16)
}

/// The request whose head has these lines and ends at `at`, and its length;
/// `None` where the peer closed in place of a head.
///
/// # Errors
/// As [`read_request`].
pub fn request_with_head(
    head: &Vec<String>,
    input: &[u8],
    at: usize,
    limit: usize,
) -> (res: Result<Option<(Request, usize)>, ReadError>)
    requires
        at <= input.len(),
    ensures
        match res {
            Ok(Some(found)) => request_after(
                line_views(head@),
                input@,
                at as int,
                limit as nat,
            ) == Ok::<Option<(RequestView, int)>, ReadErrorView>(
                Some((found.0@, found.1 as int)),
            ) && at <= found.1 <= input.len(),
            Ok(None) => request_after(line_views(head@), input@, at as int, limit as nat) == Ok::<
                Option<(RequestView, int)>,
                ReadErrorView,
            >(None),
            Err(error) => request_after(
                line_views(head@),
                input@,
                at as int,
                limit as nat,
            ) == Err::<Option<(RequestView, int)>, ReadErrorView>(error@),
        },
{
    if head.len() == 0 {
        return Ok(None);
    }
    let line = head[0].as_str();
    let (method, path) = match read_request_line(line) {
        None => {
            return Err(
                ReadError::Refused(
                    protocol_error(joined("a request line Xmip cannot read: ", line)),
                ),
            );
        },
        Some(words) => words,
    };
    let headers = headers(head);
    let length = request_length_of(method.as_str(), &headers, at < input.len(), limit);
    match read_body(input, at, length) {
        Err(error) => Err(error),
        Ok((body, after)) => Ok(Some((Request { method, path, headers, body }, after))),
    }
}

/// Read one request off the start of `input`, no body of it over `limit`:
/// the request and its length, or `None` when the peer closed between
/// requests.
///
/// # Errors
/// A request line that is not `METHOD path HTTP/1.1`, a chunked body, a body
/// whose length is missing, not a number or over `limit`, or bytes that end
/// before the request does. What follows the head of a PUT is its body: a
/// length is missing where something follows and none is announced. Any other
/// request that announces no length has no body.
pub fn read_request(input: &[u8], limit: usize) -> (res: Result<
    Option<(Request, usize)>,
    ReadError,
>)
    ensures
        match res {
            Ok(Some(found)) => request_in(input@, limit as nat) == Ok::<
                Option<(RequestView, int)>,
                ReadErrorView,
            >(Some((found.0@, found.1 as int))) && found.1 <= input.len(),
            Ok(None) => request_in(input@, limit as nat) == Ok::<
                Option<(RequestView, int)>,
                ReadErrorView,
            >(None),
            Err(error) => request_in(input@, limit as nat) == Err::<
                Option<(RequestView, int)>,
                ReadErrorView,
            >(error@),
        },
{
    match read_head(input) {
        None => {
            if input.len() == 0 {
                Ok(None)
            } else {
                Err(ReadError::Partial)
            }
        },
        Some((head, at)) => request_with_head(&head, input, at, limit),
    }
}

/// How a connection fails that closes in place of an answer.
fn closed() -> (res: ReadError)
    ensures
        res@ == closed_early(),
{
    ReadError::Refused(protocol_error("the server closed without answering".to_owned()))
}

/// The response whose head has these lines and ends at `at`, and its length.
///
/// # Errors
/// As [`read_response`].
pub fn response_with_head(
    head: &Vec<String>,
    input: &[u8],
    at: usize,
    limit: usize,
) -> (res: Result<(Response, usize), ReadError>)
    requires
        at <= input.len(),
    ensures
        match res {
            Ok(found) => response_after(
                line_views(head@),
                input@,
                at as int,
                limit as nat,
            ) == Ok::<(ResponseView, int), ReadErrorView>((found.0@, found.1 as int)) && at
                <= found.1 <= input.len(),
            Err(error) => response_after(
                line_views(head@),
                input@,
                at as int,
                limit as nat,
            ) == Err::<(ResponseView, int), ReadErrorView>(error@),
        },
{
    if head.len() == 0 {
        return Err(closed());
    }
    let line = head[0].as_str();
    let status: u16 = match read_status_line(line) {
        None => {
            return Err(
                ReadError::Refused(
                    protocol_error(joined("a status line Xmip cannot read: ", line)),
                ),
            );
        },
        Some(status) => status,
    };
    let headers = headers(head);
    if status == 204 || status == 304 {
        proof {
            assert(input@.subrange(at as int, at as int) == Seq::<u8>::empty());
        }
        return Ok((Response { status, headers, body: Vec::new() }, at));
    }
    match read_body(input, at, length_of(&headers, limit)) {
        Err(error) => Err(error),
        Ok((body, after)) => Ok((Response { status, headers, body }, after)),
    }
}

/// Read one response off the start of `input`, no body of it over `limit`:
/// the response and its length.
///
/// # Errors
/// A status line that cannot be read, a chunked body, a body whose length is
/// not a number or over `limit`, a connection that closed before answering,
/// or bytes that end before the response does.
pub fn read_response(input: &[u8], limit: usize) -> (res: Result<(Response, usize), ReadError>)
    ensures
        match res {
            Ok(found) => response_in(input@, limit as nat) == Ok::<
                (ResponseView, int),
                ReadErrorView,
            >((found.0@, found.1 as int)) && found.1 <= input.len(),
            Err(error) => response_in(input@, limit as nat) == Err::<
                (ResponseView, int),
                ReadErrorView,
            >(error@),
        },
{
    match read_head(input) {
        None => {
            if input.len() == 0 {
                Err(closed())
            } else {
                Err(ReadError::Partial)
            }
        },
        Some((head, at)) => response_with_head(&head, input, at, limit),
    }
}

} // verus!
