//! What a client asks is what a session answers, through the bytes between
//! them.

use vstd::prelude::*;
use vstd::utf8::encode_utf8;
use crate::client::{
    delete_held_request, lock_body, lock_request, propfind_body, propfind_request, put_request,
    unlock_request,
};
use crate::error::ErrorView;
use crate::laws::messages::{
    answer_on_the_wire, fit_header, fit_headers, fit_request, fit_response, law_request_round_trip,
    law_response_round_trip, leave_length, lemma_value_concat, on_the_wire, one_word,
};
use crate::session::{outcome, reply_bytes, served, token_text, EventView, Served, StoreView};
use crate::text::{decimal, is_digit, lemma_decimal, lower, same_letters};
use crate::wire::{
    head_from, line_feed, request_bytes, request_in, response_in, value_of, ReadErrorView,
    RequestView, ResponseView,
};

verus! {

/// A request as it reaches the session: the host before its headers, the
/// connection kept, the length of its body last.
pub open spec fn carried(authority: Seq<char>, request: RequestView) -> RequestView {
    on_the_wire(authority, request.having("Connection"@, "keep-alive"@))
}

/// A response as it reaches the client: the connection kept, the length of
/// its body last.
pub open spec fn heard(response: ResponseView) -> ResponseView {
    answer_on_the_wire(response.having("Connection"@, "keep-alive"@))
}

/// How a connection fails that ends inside an answer.
pub open spec fn broke() -> ErrorView {
    ErrorView { message: "the connection broke"@, retryable: true }
}

/// What becomes of a request whose bytes a client sends to a session over
/// `store`: the store that serving them leaves, and what the client reads of
/// the bytes that come back, no body over `limit` at either end.
#[verifier::opaque]
pub open spec fn asked(
    store: StoreView,
    peer: Seq<char>,
    authority: Seq<char>,
    request: RequestView,
    limit: nat,
) -> (StoreView, Result<ResponseView, ErrorView>) {
    let sent = request_bytes(authority, request.having("Connection"@, "keep-alive"@));
    let done = served(store, peer, sent, limit);
    let answer = match response_in(done.replies, limit) {
        Ok((response, _)) => Ok(response),
        Err(ReadErrorView::Refused(error)) => Err(error),
        Err(ReadErrorView::Partial) => Err(broke()),
    };
    (done.store, answer)
}

/// Whether a path on a server can be asked for: both can be written.
pub open spec fn reachable(authority: Seq<char>, path: Seq<char>) -> bool {
    fit_header(("Host"@, authority)) && one_word(path)
}

/// Whether a limit leaves room for the bodies that a client asks with.
pub open spec fn ample(limit: nat) -> bool {
    &&& encode_utf8(propfind_body()).len() <= limit
    &&& encode_utf8(lock_body()).len() <= limit
    &&& limit <= usize::MAX
}

/// The headers that a client adds are none that a session looks for.
pub proof fn lemma_own_value(authority: Seq<char>, request: RequestView, name: Seq<char>)
    requires
        name == "If"@ || name == "Lock-Token"@ || name == "Depth"@,
    ensures
        value_of(carried(authority, request).headers, name) == value_of(request.headers, name),
{
    reveal_strlit("If");
    reveal_strlit("Lock-Token");
    reveal_strlit("Depth");
    reveal_strlit("Host");
    reveal_strlit("Connection");
    reveal_strlit("Content-Length");
    let host = seq![("Host"@, authority)];
    let kept = seq![("Connection"@, "keep-alive"@)];
    let last = seq![("Content-Length"@, decimal(request.body.len()))];
    assert(carried(authority, request).headers =~= host + (request.headers + (kept + last)));
    lemma_value_concat(host, request.headers + (kept + last), name);
    lemma_value_concat(request.headers, kept + last, name);
    lemma_value_concat(kept, last, name);
    assert(host.skip(1) =~= Seq::empty());
    assert(kept.skip(1) =~= Seq::empty());
    assert(last.skip(1) =~= Seq::empty());
    assert(value_of(host.skip(1), name) is None);
    assert(lower("Connection"@[0]) != lower("Lock-Token"@[0]));
    assert(value_of(host, name) is None);
    assert(value_of(kept, name) is None);
    assert(value_of(last, name) is None);
}

/// The header that keeps a connection can be written.
proof fn lemma_kept()
    ensures
        fit_header(("Connection"@, "keep-alive"@)),
        !same_letters("Connection"@, "content-length"@),
        !same_letters("Connection"@, "transfer-encoding"@),
{
    reveal_strlit("Connection");
    reveal_strlit("keep-alive");
    reveal_strlit("content-length");
    reveal_strlit("transfer-encoding");
}

/// One more header that can be written, and says nothing of the length.
proof fn lemma_one_more(
    headers: Seq<(Seq<char>, Seq<char>)>,
    header: (Seq<char>, Seq<char>),
)
    requires
        fit_headers(headers),
        leave_length(headers),
        fit_header(header),
        !same_letters(header.0, "content-length"@),
        !same_letters(header.0, "transfer-encoding"@),
    ensures
        fit_headers(headers.push(header)),
        leave_length(headers.push(header)),
{
    let all = headers.push(header);
    let one = seq![header];
    assert(all =~= headers + one);
    assert forall|i: int| 0 <= i < all.len() implies fit_header(#[trigger] all[i]) by {
        if i < headers.len() {
            assert(all[i] == headers[i]);
        }
    }
    assert(one.skip(1) =~= Seq::empty());
    assert(value_of(one.skip(1), "content-length"@) is None);
    assert(value_of(one.skip(1), "transfer-encoding"@) is None);
    lemma_value_concat(headers, one, "content-length"@);
    lemma_value_concat(headers, one, "transfer-encoding"@);
}

/// A token in angle brackets can stand in a header.
proof fn lemma_token_header(n: nat)
    ensures
        fit_header(("Lock-Token"@, "<"@ + token_text(n) + ">"@)),
{
    reveal_strlit("Lock-Token");
    reveal_strlit("<");
    reveal_strlit(">");
    reveal_strlit("opaquelocktoken:xmip-");
    lemma_decimal(n);
    let start = "opaquelocktoken:xmip-"@;
    let digits = decimal(n);
    let value = "<"@ + token_text(n) + ">"@;
    assert forall|i: int| 0 <= i < value.len() implies #[trigger] value[i] != '\n' by {
        let m = start.len() as int;
        if 0 < i <= m {
            assert(value[i] == start[i - 1]);
        } else if m < i < value.len() - 1 {
            assert(value[i] == digits[i - 1 - m]);
            assert(is_digit(digits[i - 1 - m]));
        }
    }
    assert(value.first() == '<');
    assert(value.last() == '>');
}

/// Whatever a session answers can be written.
pub proof fn lemma_answers_fit(store: StoreView, peer: Seq<char>, request: RequestView)
    ensures
        fit_response(outcome(store, peer, request).response.having("Connection"@, "keep-alive"@)),
{
    let none = Seq::<(Seq<char>, Seq<char>)>::empty();
    let kept = ("Connection"@, "keep-alive"@);
    let kind = ("Content-Type"@, "application/xml; charset=utf-8"@);
    let token = ("Lock-Token"@, "<"@ + token_text(store.issued + 1) + ">"@);
    lemma_kept();
    assert(fit_headers(none));
    assert(leave_length(none));
    lemma_one_more(none, kept);
    reveal_strlit("Content-Type");
    reveal_strlit("application/xml; charset=utf-8");
    reveal_strlit("Lock-Token");
    reveal_strlit("content-length");
    reveal_strlit("transfer-encoding");
    assert(lower("Content-Type"@[8]) != lower("content-length"@[8]));
    assert(fit_header(kind));
    lemma_one_more(none, kind);
    lemma_one_more(none.push(kind), kept);
    lemma_token_header(store.issued + 1);
    lemma_one_more(none, token);
    lemma_one_more(none.push(token), kind);
    lemma_one_more(none.push(token).push(kind), kept);
    let headers = outcome(store, peer, request).response.headers;
    assert(headers == none || headers == none.push(kind) || headers == none.push(token).push(
        kind,
    ));
}

/// Whether a token can stand in a header.
pub open spec fn fit_token(token: Seq<char>) -> bool {
    forall|i: int| 0 <= i < token.len() ==> #[trigger] token[i] != '\n'
}

/// A token in brackets, and in brackets and parentheses, can be written.
proof fn lemma_shown_token(token: Seq<char>)
    requires
        fit_token(token),
    ensures
        fit_header(("If"@, "(<"@ + token + ">)"@)),
        fit_header(("Lock-Token"@, "<"@ + token + ">"@)),
{
    reveal_strlit("If");
    reveal_strlit("Lock-Token");
    reveal_strlit("(<");
    reveal_strlit(">)");
    reveal_strlit("<");
    reveal_strlit(">");
    let condition = "(<"@ + token + ">)"@;
    let bracketed = "<"@ + token + ">"@;
    assert forall|i: int| 0 <= i < condition.len() implies #[trigger] condition[i] != '\n' by {
        if 2 <= i < 2 + token.len() {
            assert(condition[i] == token[i - 2]);
        }
    }
    assert forall|i: int| 0 <= i < bracketed.len() implies #[trigger] bracketed[i] != '\n' by {
        if 1 <= i < 1 + token.len() {
            assert(bracketed[i] == token[i - 1]);
        }
    }
    assert(condition.first() == '(' && condition.last() == ')');
    assert(bracketed.first() == '<' && bracketed.last() == '>');
}

/// The headers that a client asks with can be written.
proof fn lemma_asking_headers()
    ensures
        fit_header(("Depth"@, "0"@)),
        fit_header(("Depth"@, "1"@)),
        fit_header(("Timeout"@, "Second-600"@)),
        fit_header(("Content-Type"@, "application/xml"@)),
        fit_header(("Content-Type"@, "application/octet-stream"@)),
{
    reveal_strlit("Depth");
    reveal_strlit("0");
    reveal_strlit("1");
    reveal_strlit("Timeout");
    reveal_strlit("Second-600");
    reveal_strlit("Content-Type");
    reveal_strlit("application/xml");
    reveal_strlit("application/octet-stream");
}

/// The headers that a client asks with say nothing of the length.
proof fn lemma_asking_names()
    ensures
        !same_letters("Depth"@, "content-length"@),
        !same_letters("Depth"@, "transfer-encoding"@),
        !same_letters("Timeout"@, "content-length"@),
        !same_letters("Timeout"@, "transfer-encoding"@),
        !same_letters("Content-Type"@, "content-length"@),
        !same_letters("Content-Type"@, "transfer-encoding"@),
        !same_letters("If"@, "content-length"@),
        !same_letters("If"@, "transfer-encoding"@),
        !same_letters("Lock-Token"@, "content-length"@),
        !same_letters("Lock-Token"@, "transfer-encoding"@),
{
    reveal_strlit("Depth");
    reveal_strlit("Timeout");
    reveal_strlit("Content-Type");
    reveal_strlit("If");
    reveal_strlit("Lock-Token");
    reveal_strlit("content-length");
    reveal_strlit("transfer-encoding");
}

/// Whatever a client asks of a path that is one word can be written, and so
/// reaches the server as it was asked.
pub proof fn law_requests_can_be_written(
    authority: Seq<char>,
    path: Seq<char>,
    depth: Seq<char>,
    bytes: Seq<u8>,
    token: Seq<char>,
)
    requires
        fit_header(("Host"@, authority)),
        one_word(path),
        depth == "0"@ || depth == "1"@,
        fit_token(token),
    ensures
        ({
            let kept = |request: RequestView| request.having("Connection"@, "keep-alive"@);
            &&& fit_request(authority, kept(propfind_request(path, depth)))
            &&& fit_request(authority, kept(RequestView::plain("GET"@, path)))
            &&& fit_request(authority, kept(put_request(path, bytes)))
            &&& fit_request(authority, kept(RequestView::plain("DELETE"@, path)))
            &&& fit_request(authority, kept(delete_held_request(path, token)))
            &&& fit_request(authority, kept(RequestView::plain("MKCOL"@, path)))
            &&& fit_request(authority, kept(lock_request(path)))
            &&& fit_request(authority, kept(unlock_request(path, token)))
        }),
{
    let none = Seq::<(Seq<char>, Seq<char>)>::empty();
    let kept = ("Connection"@, "keep-alive"@);
    let depth = ("Depth"@, depth);
    let patience = ("Timeout"@, "Second-600"@);
    let xml = ("Content-Type"@, "application/xml"@);
    let octets = ("Content-Type"@, "application/octet-stream"@);
    let condition = ("If"@, "(<"@ + token + ">)"@);
    let shown = ("Lock-Token"@, "<"@ + token + ">"@);
    lemma_kept();
    lemma_asking_headers();
    lemma_asking_names();
    lemma_shown_token(token);
    assert(fit_headers(none));
    assert(leave_length(none));
    lemma_one_more(none, kept);
    lemma_one_more(none, depth);
    lemma_one_more(none.push(depth), xml);
    lemma_one_more(none.push(depth).push(xml), kept);
    lemma_one_more(none, octets);
    lemma_one_more(none.push(octets), kept);
    lemma_one_more(none, condition);
    lemma_one_more(none.push(condition), kept);
    lemma_one_more(none, patience);
    lemma_one_more(none.push(patience), xml);
    lemma_one_more(none.push(patience).push(xml), kept);
    lemma_one_more(none, shown);
    lemma_one_more(none.push(shown), kept);
    lemma_method_words();
}

/// A method is one word.
proof fn lemma_method_words()
    ensures
        one_word("PROPFIND"@),
        one_word("GET"@),
        one_word("PUT"@),
        one_word("DELETE"@),
        one_word("MKCOL"@),
        one_word("LOCK"@),
        one_word("UNLOCK"@),
{
    reveal_strlit("PROPFIND");
    reveal_strlit("GET");
    reveal_strlit("PUT");
    reveal_strlit("DELETE");
    reveal_strlit("MKCOL");
    reveal_strlit("LOCK");
    reveal_strlit("UNLOCK");
}

/// An exchange: the bytes a client sends for a request are served as that one
/// request, nothing left over, and the bytes it is answered with are heard as
/// that one answer, byte for byte of both bodies.
pub proof fn law_exchange(
    store: StoreView,
    peer: Seq<char>,
    authority: Seq<char>,
    request: RequestView,
    limit: nat,
)
    requires
        fit_request(authority, request.having("Connection"@, "keep-alive"@)),
        request.body.len() <= limit,
        outcome(store, peer, carried(authority, request)).response.body.len() <= limit,
        limit <= usize::MAX,
    ensures
        ({
            let sent = request_bytes(authority, request.having("Connection"@, "keep-alive"@));
            let done = outcome(store, peer, carried(authority, request));
            let replies = reply_bytes(done.response);
            &&& served(store, peer, sent, limit) == (Served {
                store: done.store,
                events: seq![done.event],
                replies,
                trouble: None,
            })
            &&& response_in(replies, limit) == Ok::<(ResponseView, int), ReadErrorView>(
                (heard(done.response), replies.len() as int),
            )
            &&& asked(store, peer, authority, request, limit) == (
                done.store,
                Ok::<ResponseView, ErrorView>(heard(done.response)),
            )
        }),
{
    let kept = request.having("Connection"@, "keep-alive"@);
    let sent = request_bytes(authority, kept);
    let done = outcome(store, peer, carried(authority, request));
    let replies = reply_bytes(done.response);
    let none = Seq::<u8>::empty();
    law_request_round_trip(authority, kept, none, limit);
    assert(sent + none =~= sent);
    assert(sent.skip(sent.len() as int) =~= none);
    assert(line_feed(none, 0) is None);
    assert(head_from(none, 0) is None);
    assert(request_in(none, limit) == Ok::<Option<(RequestView, int)>, ReadErrorView>(None));
    let rest = served(done.store, peer, none, limit);
    assert(rest.events =~= Seq::<EventView>::empty());
    assert(seq![done.event] + rest.events =~= seq![done.event]);
    assert(replies + rest.replies =~= replies);
    lemma_answers_fit(store, peer, carried(authority, request));
    law_response_round_trip(done.response.having("Connection"@, "keep-alive"@), none, limit);
    reveal(asked);
    assert(replies + none =~= replies);
}

/// Requests are served in turn: one that was written is served first, over
/// the store as it was, and what follows it over the store that it leaves.
pub proof fn law_served_in_turn(
    store: StoreView,
    peer: Seq<char>,
    authority: Seq<char>,
    request: RequestView,
    rest: Seq<u8>,
    limit: nat,
)
    requires
        fit_request(authority, request),
        request.body.len() <= limit,
        request.body.len() <= usize::MAX,
    ensures
        ({
            let first = outcome(store, peer, on_the_wire(authority, request));
            let further = served(first.store, peer, rest, limit);
            served(store, peer, request_bytes(authority, request) + rest, limit) == (Served {
                store: further.store,
                events: seq![first.event] + further.events,
                replies: reply_bytes(first.response) + further.replies,
                trouble: further.trouble,
            })
        }),
{
    let sent = request_bytes(authority, request);
    law_request_round_trip(authority, request, rest, limit);
    assert((sent + rest).skip(sent.len() as int) =~= rest);
}

} // verus!
