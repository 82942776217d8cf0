//! What is read off any bytes, whoever sent them.

use vstd::prelude::*;
use crate::error::ErrorView;
use crate::laws::texts::{all_in, lacks, law_first_word, law_split};
use crate::session::{awaited, outcome, reply_bytes, served, EventView, StoreView};
use crate::text::{
    decimal, first_word, holds_letters, is_white, number, same_letters, text_of, trim, trim_start,
    Class,
};
use crate::wire::{
    body_length, head_from, headers_in, line_bytes, line_feed, request_after, request_in,
    request_line, response_after, response_bytes, response_in, status_line, value_of, ReadErrorView,
    RequestView, ResponseView,
};

verus! {

// ---------------------------------------------------------------------
// Headers
// ---------------------------------------------------------------------

/// Whether no header of a run has a name, however it is capitalised.
pub open spec fn no_header(headers: Seq<(Seq<char>, Seq<char>)>, name: Seq<char>) -> bool {
    forall|i: int| 0 <= i < headers.len() ==> !same_letters((#[trigger] headers[i]).0, name)
}

/// The value of a header is that of the first of its name, however it is
/// capitalised; there is none where no header has the name.
pub proof fn law_first_header_counts(
    before: Seq<(Seq<char>, Seq<char>)>,
    header: (Seq<char>, Seq<char>),
    after: Seq<(Seq<char>, Seq<char>)>,
    name: Seq<char>,
)
    requires
        no_header(before, name),
    ensures
        value_of(before, name) is None,
        same_letters(header.0, name) ==> value_of(before + seq![header] + after, name) == Some(
            header.1,
        ),
    decreases before.len(),
{
    let all = before + seq![header] + after;
    if before.len() > 0 {
        let fewer = before.skip(1);
        assert forall|i: int| 0 <= i < fewer.len() implies !same_letters(
            (#[trigger] fewer[i]).0,
            name,
        ) by {
            assert(fewer[i] == before[i + 1]);
        }
        law_first_header_counts(fewer, header, after, name);
        assert(!same_letters(before[0].0, name));
        assert(all[0] == before[0]);
        assert(all.skip(1) =~= fewer + seq![header] + after);
    } else {
        assert(all[0] == header);
    }
}

/// Headers are read line by line, in order: each is split at its first colon,
/// and both sides are trimmed of white space; a line without a colon is none.
pub proof fn law_headers_are_read(
    before: Seq<Seq<char>>,
    name: Seq<char>,
    value: Seq<char>,
    after: Seq<Seq<char>>,
)
    requires
        lacks(name, ':'),
    ensures
        headers_in(Seq::empty()) == Seq::<(Seq<char>, Seq<char>)>::empty(),
        headers_in(before + after) == headers_in(before) + headers_in(after),
        headers_in(seq![name]) == Seq::<(Seq<char>, Seq<char>)>::empty(),
        headers_in(seq![name + seq![':'] + value]) == seq![
            (trim(name, Class::White), trim(value, Class::White)),
        ],
    decreases after.len(),
{
    let none = Seq::<Seq<char>>::empty();
    law_split(name, value, ':');
    let line = name + seq![':'] + value;
    assert(seq![name].drop_last() =~= none);
    assert(seq![line].drop_last() =~= none);
    assert(headers_in(none) =~= Seq::<(Seq<char>, Seq<char>)>::empty());
    assert(headers_in(seq![line]) =~= seq![(trim(name, Class::White), trim(value, Class::White))]);
    if after.len() == 0 {
        assert(before + after =~= before);
        assert(headers_in(before) + headers_in(after) =~= headers_in(before));
    } else {
        law_headers_are_read(before, name, value, after.drop_last());
        assert((before + after).drop_last() =~= before + after.drop_last());
        assert((before + after).last() == after.last());
        assert(headers_in(before + after) =~= headers_in(before) + headers_in(after));
    }
}

// ---------------------------------------------------------------------
// Heads
// ---------------------------------------------------------------------

/// Whether bytes hold no line feed.
pub open spec fn one_row(bytes: Seq<u8>) -> bool {
    forall|i: int| 0 <= i < bytes.len() ==> #[trigger] bytes[i] != 10
}

/// A head is read line by line. A line ends in a line feed, or in a carriage
/// return and a line feed. A blank line ends the head. Where no line feed is
/// left, the head is not whole.
pub proof fn law_head(before: Seq<u8>, line: Seq<u8>, feed: Seq<u8>, after: Seq<u8>)
    requires
        one_row(line),
        feed == seq![13u8, 10u8] || (feed == seq![10u8] && (line.len() > 0 ==> line.last() != 13)),
    ensures
        ({
            let input = before + line + feed + after;
            let from = before.len() as int;
            let next = (before.len() + line.len() + feed.len()) as int;
            &&& line.len() == 0 ==> head_from(input, from) == Some((Seq::<Seq<char>>::empty(), next))
            &&& line.len() > 0 ==> head_from(input, from) == match head_from(input, next) {
                None => None,
                Some((lines, end)) => Some((seq![text_of(line)] + lines, end)),
            }
        }),
        head_from(before + line, before.len() as int) is None,
{
    let input = before + line + feed + after;
    let from = before.len() as int;
    let end = from + line.len() + feed.len() - 1;
    assert(input[end] == 10);
    assert forall|j: int| from <= j < end implies input[j] != 10 by {
        if j < from + line.len() {
            assert(input[j] == line[j - from]);
        }
    }
    lemma_feed_at(input, from, end);
    if feed.len() == 2 {
        assert(input[end - 1] == 13);
        assert(input.subrange(from, end - 1) =~= line);
    } else {
        assert(input.subrange(from, end) =~= line);
        if line.len() > 0 {
            assert(input[end - 1] == line.last());
        }
    }
    assert(line_bytes(input, from, end) == line);
    let bare = before + line;
    assert forall|j: int| from <= j < bare.len() implies bare[j] != 10 by {
        assert(bare[j] == line[j - from]);
    }
    lemma_no_feed(bare, from);
}

/// The first line feed is found where it stands.
proof fn lemma_feed_at(input: Seq<u8>, from: int, at: int)
    requires
        0 <= from <= at < input.len(),
        input[at] == 10,
        forall|j: int| from <= j < at ==> input[j] != 10,
    ensures
        line_feed(input, from) == Some(at),
    decreases at - from,
{
    if from < at {
        lemma_feed_at(input, from + 1, at);
    }
}

/// Where there is no line feed none is found.
proof fn lemma_no_feed(input: Seq<u8>, from: int)
    requires
        0 <= from,
        forall|j: int| from <= j < input.len() ==> input[j] != 10,
    ensures
        line_feed(input, from) is None,
    decreases input.len() - from,
{
    if from < input.len() {
        lemma_no_feed(input, from + 1);
    }
}

// ---------------------------------------------------------------------
// First lines
// ---------------------------------------------------------------------

/// Whether a text is one word.
pub open spec fn is_word(text: Seq<char>) -> bool {
    text.len() > 0 && forall|i: int| 0 <= i < text.len() ==> !is_white(#[trigger] text[i])
}

/// Whether a text is white space, and some of it.
pub open spec fn is_space(text: Seq<char>) -> bool {
    text.len() > 0 && all_in(Class::White, text)
}

/// A request line is three words, the last `HTTP/1.1`, with any white space
/// between and around them: it names the first two. A line of fewer words, of
/// more, or with another last word names nothing.
pub proof fn law_request_line(
    s0: Seq<char>,
    method: Seq<char>,
    s1: Seq<char>,
    path: Seq<char>,
    s2: Seq<char>,
    version: Seq<char>,
    end: Seq<char>,
    rest: Seq<char>,
)
    requires
        all_in(Class::White, s0),
        is_word(method),
        is_space(s1),
        is_word(path),
        is_space(s2),
        is_word(version),
        all_in(Class::White, end),
        rest.len() > 0 ==> is_white(rest[0]),
    ensures
        version == "HTTP/1.1"@ ==> request_line(s0 + method + s1 + path + s2 + version + end)
            == Some((method, path)),
        version != "HTTP/1.1"@ ==> request_line(s0 + method + s1 + path + s2 + version + rest)
            is None,
        !all_in(Class::White, rest) ==> request_line(
            s0 + method + s1 + path + s2 + version + rest,
        ) is None,
        request_line(s0 + method + s1 + path + end) is None,
        request_line(s0 + method + end) is None,
        request_line(end) is None,
{
    let none = Seq::<char>::empty();
    assert(crate::text::in_class(Class::White, s1[0]));
    assert(crate::text::in_class(Class::White, s2[0]));
    assert(end.len() > 0 ==> crate::text::in_class(Class::White, end[0]));
    let line = s0 + method + s1 + path;
    lemma_words(s0, method, s1, path, s2 + version + end);
    lemma_words(s0, method, s1, path, s2 + version + rest);
    lemma_words(s0, method, s1, path, end);
    assert(line + (s2 + version + end) =~= line + s2 + version + end);
    assert(line + (s2 + version + rest) =~= line + s2 + version + rest);
    law_first_word(s2, version, end);
    law_first_word(s2, version, rest);
    law_first_word(end, none, none);
    law_first_word(s0, method, end);
    if !all_in(Class::White, rest) {
        lemma_some_word(rest);
    }
}

/// What is not white space alone has a word in it.
proof fn lemma_some_word(text: Seq<char>)
    requires
        !all_in(Class::White, text),
    ensures
        first_word(text) is Some,
    decreases text.len(),
{
    let i = choose|i: int| 0 <= i < text.len() && !is_white(#[trigger] text[i]);
    if is_white(text[0]) {
        let fewer = text.drop_first();
        assert(fewer[i - 1] == text[i]);
        assert(!crate::text::in_class(Class::White, fewer[i - 1]));
        lemma_some_word(fewer);
        assert(trim_start(text, Class::White) == trim_start(fewer, Class::White));
    }
}

/// The first two words of a line.
proof fn lemma_words(
    s0: Seq<char>,
    first: Seq<char>,
    s1: Seq<char>,
    second: Seq<char>,
    rest: Seq<char>,
)
    requires
        all_in(Class::White, s0),
        is_word(first),
        is_space(s1),
        is_word(second),
        rest.len() > 0 ==> is_white(rest[0]),
    ensures
        first_word(s0 + first + s1 + second + rest) == Some((first, s1 + second + rest)),
        first_word(s1 + second + rest) == Some((second, rest)),
{
    assert(crate::text::in_class(Class::White, s1[0]));
    law_first_word(s0, first, s1 + second + rest);
    assert((s1 + second + rest)[0] == s1[0]);
    assert(s0 + first + (s1 + second + rest) =~= s0 + first + s1 + second + rest);
    law_first_word(s1, second, rest);
}

/// A status line names the number that its second word writes, whatever its
/// first word is and whatever follows; a line of one word or none names
/// nothing.
pub proof fn law_status_line(
    s0: Seq<char>,
    first: Seq<char>,
    s1: Seq<char>,
    code: Seq<char>,
    end: Seq<char>,
    rest: Seq<char>,
)
    requires
        all_in(Class::White, s0),
        is_word(first),
        is_space(s1),
        is_word(code),
        all_in(Class::White, end),
        rest.len() > 0 ==> is_white(rest[0]),
    ensures
        status_line(s0 + first + s1 + code + rest) == number(code, 65535),
        status_line(s0 + first + end) is None,
        status_line(end) is None,
{
    let none = Seq::<char>::empty();
    assert(crate::text::in_class(Class::White, s1[0]));
    lemma_words(s0, first, s1, code, rest);
    assert(end.len() > 0 ==> crate::text::in_class(Class::White, end[0]));
    law_first_word(s0, first, end);
    law_first_word(end, none, none);
}

// ---------------------------------------------------------------------
// Bodies
// ---------------------------------------------------------------------

/// A failure to read that will not go away.
pub open spec fn unreadable(message: Seq<char>) -> ReadErrorView {
    ReadErrorView::Refused(ErrorView { message, retryable: false })
}

/// How long a body is: as `Content-Length` says, or nothing where it says
/// nothing. A body that arrives chunked, in letters of whatever case, a length
/// that is no number, and one over the limit are refused, each with its own
/// words.
pub proof fn law_body_length(headers: Seq<(Seq<char>, Seq<char>)>, limit: nat)
    ensures
        ({
            let coding = value_of(headers, "transfer-encoding"@);
            let said = value_of(headers, "content-length"@);
            let length = number(said->0, usize::MAX as nat);
            let found = body_length(headers, limit);
            if coding is Some && holds_letters(coding->0, "chunked"@) {
                found == Err::<nat, ErrorView>(
                    ErrorView {
                        message: "a chunked body, which this transport does not read"@,
                        retryable: false,
                    },
                )
            } else if said is None {
                found == Ok::<nat, ErrorView>(0)
            } else if length is None {
                found == Err::<nat, ErrorView>(
                    ErrorView {
                        message: "a content-length that is not a number: "@ + said->0,
                        retryable: false,
                    },
                )
            } else if length->0 > limit {
                found == Err::<nat, ErrorView>(
                    ErrorView {
                        message: "a body of "@ + decimal(length->0) + " bytes, over the "@
                            + decimal(limit) + " byte limit"@,
                        retryable: false,
                    },
                )
            } else {
                found == Ok::<nat, ErrorView>(length->0)
            }
        }),
{
}

/// What the request is whose head has these lines and ends at `at`. None
/// where there are no lines. A first line that is no request line is refused.
/// Of a PUT without a length, with something after its head, the length is
/// missing. Else the request is the words of its first line, the headers of
/// the others, and as many bytes after the head as the headers say; there is
/// more to come where those are not there yet.
pub proof fn law_request_after_its_head(
    lines: Seq<Seq<char>>,
    input: Seq<u8>,
    at: int,
    limit: nat,
)
    ensures
        ({
            let headers = headers_in(lines.skip(1));
            let length = body_length(headers, limit);
            let found = request_after(lines, input, at, limit);
            if lines.len() == 0 {
                found == Ok::<Option<(RequestView, int)>, ReadErrorView>(None)
            } else if request_line(lines[0]) is None {
                found == Err::<Option<(RequestView, int)>, ReadErrorView>(
                    unreadable("a request line Xmip cannot read: "@ + lines[0]),
                )
            } else if length is Err {
                found == Err::<Option<(RequestView, int)>, ReadErrorView>(
                    ReadErrorView::Refused(length->Err_0),
                )
            } else if (request_line(lines[0]) matches Some((method, _)) && method == "PUT"@) && at
                < input.len() && value_of(headers, "content-length"@) is None {
                found == Err::<Option<(RequestView, int)>, ReadErrorView>(
                    unreadable("a body whose length is missing"@),
                )
            } else if length->Ok_0 > input.len() - at {
                found == Err::<Option<(RequestView, int)>, ReadErrorView>(ReadErrorView::Partial)
            } else {
                found matches Ok(Some((request, end))) && end == at + length->Ok_0 && request.body
                    == input.subrange(at, end) && request.headers == headers && (
                request.method, request.path) == request_line(lines[0])->0
            }
        }),
{
}

/// What a request is, of whatever bytes: none where there are no bytes; there
/// is more to come where the head is not whole; else what its head and what
/// follows say.
pub proof fn law_request_is_read(input: Seq<u8>, limit: nat)
    ensures
        match head_from(input, 0) {
            None => if input.len() == 0 {
                request_in(input, limit) == Ok::<Option<(RequestView, int)>, ReadErrorView>(None)
            } else {
                request_in(input, limit) == Err::<Option<(RequestView, int)>, ReadErrorView>(
                    ReadErrorView::Partial,
                )
            },
            Some((lines, at)) => request_in(input, limit) == request_after(
                lines,
                input,
                at,
                limit,
            ),
        },
{
}

/// What the response is whose head has these lines and ends at `at`. The
/// server closed early where there are none. A first line that names no
/// status is refused. A response of 204 or 304 has no body, whatever its
/// headers say. Else the body is as many bytes after the head as the headers
/// say; there is more to come where those are not there yet.
pub proof fn law_response_after_its_head(
    lines: Seq<Seq<char>>,
    input: Seq<u8>,
    at: int,
    limit: nat,
)
    requires
        0 <= at <= input.len(),
    ensures
        ({
            let headers = headers_in(lines.skip(1));
            let length = body_length(headers, limit);
            let found = response_after(lines, input, at, limit);
            let status = status_line(lines[0]);
            if lines.len() == 0 {
                found == Err::<(ResponseView, int), ReadErrorView>(
                    unreadable("the server closed without answering"@),
                )
            } else if status is None {
                found == Err::<(ResponseView, int), ReadErrorView>(
                    unreadable("a status line Xmip cannot read: "@ + lines[0]),
                )
            } else if status == Some(204nat) || status == Some(304nat) {
                found matches Ok((response, end)) && end == at && response.status == status->0
                    && response.headers == headers && response.body.len() == 0
            } else if length is Err {
                found == Err::<(ResponseView, int), ReadErrorView>(
                    ReadErrorView::Refused(length->Err_0),
                )
            } else if length->Ok_0 > input.len() - at {
                found == Err::<(ResponseView, int), ReadErrorView>(ReadErrorView::Partial)
            } else {
                found matches Ok((response, end)) && end == at + length->Ok_0 && response.status
                    == status->0 && response.headers == headers && response.body
                    == input.subrange(at, end)
            }
        }),
{
}

/// What a response is, of whatever bytes: the server closed early where there
/// are none; there is more to come where the head is not whole; else what its
/// head and what follows say.
pub proof fn law_response_is_read(input: Seq<u8>, limit: nat)
    ensures
        match head_from(input, 0) {
            None => if input.len() == 0 {
                response_in(input, limit) == Err::<(ResponseView, int), ReadErrorView>(
                    unreadable("the server closed without answering"@),
                )
            } else {
                response_in(input, limit) == Err::<(ResponseView, int), ReadErrorView>(
                    ReadErrorView::Partial,
                )
            },
            Some((lines, at)) => response_in(input, limit) == response_after(
                lines,
                input,
                at,
                limit,
            ),
        },
{
}

// ---------------------------------------------------------------------
// Serving
// ---------------------------------------------------------------------

/// An answer goes out with the connection kept: after its own headers, a
/// header that says so.
pub proof fn law_replies_keep_the_connection(response: ResponseView)
    ensures
        reply_bytes(response) == response_bytes(
            ResponseView {
                status: response.status,
                headers: response.headers + seq![("Connection"@, "keep-alive"@)],
                body: response.body,
            },
        ),
{
    assert(response.headers.push(("Connection"@, "keep-alive"@)) =~= response.headers + seq![
        ("Connection"@, "keep-alive"@),
    ]);
}

/// Serving bytes is serving the request they start with, and then what
/// follows it over the store that it leaves; where they start with none,
/// nothing is done and nothing said, and what could not be read is told.
pub proof fn law_serving_goes_on(store: StoreView, peer: Seq<char>, input: Seq<u8>, limit: nat)
    ensures
        match request_in(input, limit) {
            Ok(Some((request, n))) => {
                let first = outcome(store, peer, request);
                let rest = served(first.store, peer, input.skip(n), limit);
                let all = served(store, peer, input, limit);
                &&& all.store == rest.store
                &&& all.events == seq![first.event] + rest.events
                &&& all.replies == reply_bytes(first.response) + rest.replies
                &&& all.trouble == rest.trouble
            },
            Ok(None) => {
                let all = served(store, peer, input, limit);
                all.store == store && all.events.len() == 0 && all.replies.len() == 0
                    && all.trouble is None
            },
            Err(error) => {
                let all = served(store, peer, input, limit);
                all.store == store && all.events.len() == 0 && all.replies.len() == 0
                    && all.trouble == Some(error)
            },
        },
{
    crate::session::lemma_request_in(input, limit);
}

/// Waiting for a file that is stored ends with the first: every request up to
/// it is served and answered, that one too, and none after it.
pub proof fn law_waiting_ends_with_the_first_put(
    store: StoreView,
    peer: Seq<char>,
    input: Seq<u8>,
    limit: nat,
)
    ensures
        match request_in(input, limit) {
            Ok(Some((request, n))) => {
                let first = outcome(store, peer, request);
                let all = awaited(store, peer, input, limit);
                match first.event {
                    EventView::Put(arrived) => {
                        &&& all.store == first.store
                        &&& all.replies == reply_bytes(first.response)
                        &&& all.put == Ok::<
                            Option<(crate::stream::ArrivedView, int)>,
                            ReadErrorView,
                        >(Some((arrived, n)))
                    },
                    _ => {
                        let rest = awaited(first.store, peer, input.skip(n), limit);
                        &&& all.store == rest.store
                        &&& all.replies == reply_bytes(first.response) + rest.replies
                        &&& match rest.put {
                            Ok(Some((arrived, m))) => all.put == Ok::<
                                Option<(crate::stream::ArrivedView, int)>,
                                ReadErrorView,
                            >(Some((arrived, n + m))),
                            Ok(None) => all.put matches Ok(None),
                            Err(error) => all.put matches Err(e) && e == error,
                        }
                    },
                }
            },
            Ok(None) => {
                let all = awaited(store, peer, input, limit);
                all.store == store && all.replies.len() == 0 && (all.put matches Ok(None))
            },
            Err(error) => {
                let all = awaited(store, peer, input, limit);
                all.store == store && all.replies.len() == 0 && (all.put matches Err(e) && e
                    == error)
            },
        },
{
    crate::session::lemma_request_in(input, limit);
}

/// Bytes that are UTF-8 are read as what they encode.
pub proof fn law_text_is_what_is_encoded(bytes: Seq<u8>, text: Seq<char>)
    ensures
        vstd::utf8::valid_utf8(bytes) ==> text_of(bytes) == vstd::utf8::decode_utf8(bytes),
        text_of(vstd::utf8::encode_utf8(text)) == text,
{
    crate::text::lemma_text_of(text);
}

} // verus!
