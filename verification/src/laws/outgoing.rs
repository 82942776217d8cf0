//! What is written, letter by letter.

use vstd::prelude::*;
use vstd::utf8::encode_utf8;
use crate::client::{
    delete_held_request, lock_request, propfind_request, put_request, unlock_request,
};
use crate::laws::server::lemma_methods;
use crate::laws::tags::lemma_rendered_concat;
use crate::markup::{
    active_lock_pieces, closes, declaration, discovery_pieces, ending_pieces, entries_pieces,
    entry_pieces, granted, kind_pieces, lone, multistatus, opening_pieces, opens, opens_root,
    piece_text, rendered, EntryView, Piece,
};
use crate::receive::{arrived_views, Taking, TakingView};
use crate::session::{
    depth_of, entries_for, event_views, href_of, outcome, parts_of, Event, EventView, StoreView,
};
use crate::stream::Arrived;
use crate::table::{lemma_ordered, lists};
use crate::text::{decimal, trim_end, Class};
use crate::wire::{
    header_block, line_views, reason_text, request_bytes, response_bytes, value_of, ReadError,
    ReadErrorView, Request, RequestView, Response, ResponseView,
};
use crate::xml::{escaped, member_views, Member};

verus! {

// ---------------------------------------------------------------------
// Messages
// ---------------------------------------------------------------------

/// Headers are written one after the other, each on a line of its own: its
/// name, a colon, a space, its value.
pub proof fn law_headers_are_written(
    before: Seq<(Seq<char>, Seq<char>)>,
    name: Seq<char>,
    value: Seq<char>,
)
    ensures
        header_block(Seq::empty()) == Seq::<char>::empty(),
        header_block(before + seq![(name, value)]) == header_block(before) + name + ": "@ + value
            + "\r\n"@,
{
    let all = before + seq![(name, value)];
    assert(all.drop_last() =~= before);
    assert(all.last() == (name, value));
    assert(header_block(all) =~= header_block(before) + name + ": "@ + value + "\r\n"@);
}

/// A request is its first line, the host, its headers, the length of its
/// body, a blank line, and its body.
pub proof fn law_request_is_written(authority: Seq<char>, request: RequestView)
    ensures
        request_bytes(authority, request) == encode_utf8(
            request.method + " "@ + request.path + " HTTP/1.1\r\nHost: "@ + authority + "\r\n"@
                + header_block(request.headers) + "Content-Length: "@ + decimal(
                request.body.len(),
            ) + "\r\n\r\n"@,
        ) + request.body,
{
}

/// A response is its status and its phrase, its headers, the length of its
/// body, a blank line, and its body.
pub proof fn law_response_is_written(response: ResponseView)
    ensures
        response_bytes(response) == encode_utf8(
            "HTTP/1.1 "@ + decimal(response.status as nat) + " "@ + reason_text(response.status)
                + "\r\n"@ + header_block(response.headers) + "Content-Length: "@ + decimal(
                response.body.len(),
            ) + "\r\n\r\n"@,
        ) + response.body,
{
}

/// A message is made part by part: what it is given, and nothing more.
pub proof fn law_messages_are_made(
    method: Seq<char>,
    path: Seq<char>,
    request: RequestView,
    status: u16,
    response: ResponseView,
    name: Seq<char>,
    value: Seq<char>,
    body: Seq<u8>,
)
    ensures
        RequestView::plain(method, path) == (RequestView {
            method,
            path,
            headers: Seq::empty(),
            body: Seq::empty(),
        }),
        request.having(name, value) == (RequestView {
            method: request.method,
            path: request.path,
            headers: request.headers.push((name, value)),
            body: request.body,
        }),
        request.carrying(body) == (RequestView {
            method: request.method,
            path: request.path,
            headers: request.headers,
            body,
        }),
        ResponseView::plain(status) == (ResponseView {
            status,
            headers: Seq::empty(),
            body: Seq::empty(),
        }),
        response.having(name, value) == (ResponseView {
            status: response.status,
            headers: response.headers.push((name, value)),
            body: response.body,
        }),
        response.carrying(body) == (ResponseView {
            status: response.status,
            headers: response.headers,
            body,
        }),
{
}

/// What a client asks: which method, of which path, with which headers and
/// which body.
pub proof fn law_what_a_client_asks(
    href: Seq<char>,
    depth: Seq<char>,
    bytes: Seq<u8>,
    token: Seq<char>,
)
    ensures
        propfind_request(href, depth) == (RequestView {
            method: "PROPFIND"@,
            path: href,
            headers: seq![("Depth"@, depth), ("Content-Type"@, "application/xml"@)],
            body: encode_utf8(
                "<?xml version=\"1.0\" encoding=\"utf-8\"?><D:propfind xmlns:D=\"DAV:\"><D:prop><D:resourcetype/><D:lockdiscovery/></D:prop></D:propfind>"@,
            ),
        }),
        put_request(href, bytes) == (RequestView {
            method: "PUT"@,
            path: href,
            headers: seq![("Content-Type"@, "application/octet-stream"@)],
            body: bytes,
        }),
        delete_held_request(href, token) == (RequestView {
            method: "DELETE"@,
            path: href,
            headers: seq![("If"@, "(<"@ + token + ">)"@)],
            body: Seq::empty(),
        }),
        lock_request(href) == (RequestView {
            method: "LOCK"@,
            path: href,
            headers: seq![("Timeout"@, "Second-600"@), ("Content-Type"@, "application/xml"@)],
            body: encode_utf8(
                "<?xml version=\"1.0\" encoding=\"utf-8\"?><D:lockinfo xmlns:D=\"DAV:\"><D:lockscope><D:exclusive/></D:lockscope><D:locktype><D:write/></D:locktype><D:owner>xmip</D:owner></D:lockinfo>"@,
            ),
        }),
        unlock_request(href, token) == (RequestView {
            method: "UNLOCK"@,
            path: href,
            headers: seq![("Lock-Token"@, "<"@ + token + ">"@)],
            body: Seq::empty(),
        }),
{
    assert(propfind_request(href, depth).headers =~= seq![
        ("Depth"@, depth),
        ("Content-Type"@, "application/xml"@),
    ]);
    assert(put_request(href, bytes).headers =~= seq![
        ("Content-Type"@, "application/octet-stream"@),
    ]);
    assert(delete_held_request(href, token).headers =~= seq![("If"@, "(<"@ + token + ">)"@)]);
    assert(lock_request(href).headers =~= seq![
        ("Timeout"@, "Second-600"@),
        ("Content-Type"@, "application/xml"@),
    ]);
    assert(unlock_request(href, token).headers =~= seq![("Lock-Token"@, "<"@ + token + ">"@)]);
}

// ---------------------------------------------------------------------
// Listings
// ---------------------------------------------------------------------

/// The lock that is held on a href, if any.
pub open spec fn lock_on(store: StoreView, href: Seq<char>) -> Option<Seq<char>> {
    if store.locks.dom().contains(href) {
        Some(store.locks[href])
    } else {
        None
    }
}

/// What a PROPFIND answers with: of a collection, the collection itself with a
/// slash after its href, and at any depth but `0` each of its files in the
/// order of their names; of a file, the file. Each comes with the lock that is
/// held on its href, trailing slashes aside. Where no depth is said it is `1`.
pub proof fn law_what_is_listed(
    store: StoreView,
    peer: Seq<char>,
    request: RequestView,
    names: Seq<Seq<char>>,
)
    requires
        request.method == "PROPFIND"@,
        store.files.dom().contains(href_of(request.path)) ==> lists(
            names,
            store.files[href_of(request.path)].dom(),
        ),
    ensures
        ({
            let href = href_of(request.path);
            let (collection, name) = parts_of(href);
            let body = outcome(store, peer, request).response.body;
            let itself = EntryView {
                href: href + "/"@,
                collection: true,
                lock: lock_on(store, trim_end(href + "/"@, Class::Slash)),
            };
            let files = Seq::new(
                names.len(),
                |i: int|
                    EntryView {
                        href: href + "/"@ + names[i],
                        collection: false,
                        lock: lock_on(store, trim_end(href + "/"@ + names[i], Class::Slash)),
                    },
            );
            let shallow = value_of(request.headers, "Depth"@) == Some("0"@);
            if store.files.dom().contains(href) {
                if shallow {
                    body == encode_utf8(multistatus(seq![itself]))
                } else {
                    body == encode_utf8(multistatus(seq![itself] + files))
                }
            } else {
                store.files.dom().contains(collection) && store.files[collection].dom().contains(
                    name,
                ) ==> body == encode_utf8(
                    multistatus(
                        seq![
                            EntryView {
                                href,
                                collection: false,
                                lock: lock_on(store, trim_end(href, Class::Slash)),
                            },
                        ],
                    ),
                )
            }
        }),
{
    lemma_methods();
    let href = href_of(request.path);
    reveal_strlit("0");
    reveal_strlit("1");
    assert("0"@[0] == '0' && "1"@[0] == '1');
    let depth = depth_of(request.headers);
    if store.files.dom().contains(href) {
        lemma_ordered(names, store.files[href].dom());
        let files = Seq::new(
            names.len(),
            |i: int|
                EntryView {
                    href: href + "/"@ + names[i],
                    collection: false,
                    lock: lock_on(store, trim_end(href + "/"@ + names[i], Class::Slash)),
                },
        );
        assert(entries_for(store, href, names) =~= files);
    }
}

/// The parts of the text that describes a lock.
pub open spec fn lock_parts(token: Seq<char>) -> Seq<Seq<char>> {
    seq![
        "<D:lockdiscovery>"@,
        "<D:activelock>"@,
        "<D:locktype>"@,
        "<D:write/>"@,
        "</D:locktype>"@,
        "<D:lockscope>"@,
        "<D:exclusive/>"@,
        "</D:lockscope>"@,
        "<D:depth>"@,
        "0"@ + "</D:depth>"@,
        "<D:timeout>"@,
        "Second-600"@ + "</D:timeout>"@,
        "<D:locktoken>"@,
        "<D:href>"@,
        escaped(token) + "</D:href>"@,
        "</D:locktoken>"@,
        "</D:activelock>"@,
        "</D:lockdiscovery>"@,
    ]
}

/// The parts of the text that says what kind of resource a member is.
pub open spec fn kind_parts(collection: bool) -> Seq<Seq<char>> {
    if collection {
        seq!["<D:resourcetype>"@, "<D:collection/>"@, "</D:resourcetype>"@]
    } else {
        seq!["<D:resourcetype/>"@]
    }
}

/// The text of one line of a listing: its href, what kind it is, the lock on
/// it if there is one, and that it was found.
pub open spec fn line_text(entry: EntryView) -> Seq<char> {
    (seq![
        "<D:response>"@,
        "<D:href>"@,
        escaped(entry.href) + "</D:href>"@,
        "<D:propstat>"@,
        "<D:prop>"@,
    ] + kind_parts(entry.collection) + (match entry.lock {
        Some(token) => lock_parts(token),
        None => Seq::empty(),
    }) + seq![
        "</D:prop>"@,
        "<D:status>"@,
        "HTTP/1.1 200 OK"@ + "</D:status>"@,
        "</D:propstat>"@,
        "</D:response>"@,
    ]).flatten_alt()
}

/// A listing is its declaration, its root, a line for each member in order,
/// and the end of its root.
pub proof fn law_listing_is_written(entries: Seq<EntryView>)
    ensures
        multistatus(entries) == "<?xml version=\"1.0\" encoding=\"utf-8\"?>"@
            + "<D:multistatus xmlns:D=\"DAV:\">"@ + entries.map_values(
            |e: EntryView| line_text(e),
        ).flatten_alt() + "</D:multistatus>"@,
{
    let start = seq![declaration(), opens_root("multistatus"@)];
    let lines = entries_pieces(entries);
    let end = seq![closes(Seq::empty(), "multistatus"@)];
    lemma_rendered_concat(start + lines, end);
    lemma_rendered_concat(start, lines);
    lemma_lines_written(entries);
    lemma_lone_texts();
    lemma_closing_texts();
    lemma_two(declaration(), opens_root("multistatus"@));
    lemma_one(closes(Seq::empty(), "multistatus"@));
    lemma_close(Seq::empty(), "multistatus"@);
    assert(Seq::<char>::empty() + "</D:multistatus>"@ =~= "</D:multistatus>"@);
}

/// What a LOCK is answered with is its declaration, its root, the lock that
/// was granted, and the end of its root.
pub proof fn law_grant_is_written(token: Seq<char>)
    ensures
        granted(token) == "<?xml version=\"1.0\" encoding=\"utf-8\"?>"@
            + "<D:prop xmlns:D=\"DAV:\">"@ + lock_parts(token).flatten_alt() + "</D:prop>"@,
{
    let start = seq![declaration(), opens_root("prop"@)];
    let lock = discovery_pieces(Some(token));
    let end = seq![closes(Seq::empty(), "prop"@)];
    lemma_rendered_concat(start + lock, end);
    lemma_rendered_concat(start, lock);
    lemma_lock_written(token);
    lemma_written(lock, lock_parts(token));
    lemma_lone_texts();
    lemma_closing_texts();
    lemma_two(declaration(), opens_root("prop"@));
    lemma_one(closes(Seq::empty(), "prop"@));
    lemma_close(Seq::empty(), "prop"@);
    assert(Seq::<char>::empty() + "</D:prop>"@ =~= "</D:prop>"@);
}

/// One piece as it is written.
proof fn lemma_one(piece: Piece)
    ensures
        rendered(seq![piece]) == piece_text(piece),
{
    let none = Seq::<Piece>::empty();
    assert(seq![piece].drop_last() =~= none);
    assert(rendered(none) =~= Seq::<char>::empty());
    assert(rendered(seq![piece]) =~= piece_text(piece));
}

/// Two pieces as they are written.
proof fn lemma_two(one: Piece, other: Piece)
    ensures
        rendered(seq![one, other]) == piece_text(one) + piece_text(other),
{
    assert(seq![one, other] =~= seq![one] + seq![other]);
    lemma_rendered_concat(seq![one], seq![other]);
    lemma_one(one);
    lemma_one(other);
}

/// Whether each piece is written as the part of its place.
spec fn written_as(pieces: Seq<Piece>, parts: Seq<Seq<char>>) -> bool {
    &&& pieces.len() == parts.len()
    &&& forall|i: int| 0 <= i < pieces.len() ==> piece_text(#[trigger] pieces[i]) == parts[i]
}

/// Pieces are written as their parts, one after the other.
proof fn lemma_written(pieces: Seq<Piece>, parts: Seq<Seq<char>>)
    requires
        written_as(pieces, parts),
    ensures
        rendered(pieces) == parts.flatten_alt(),
    decreases pieces.len(),
{
    if pieces.len() > 0 {
        let fewer = pieces.drop_last();
        assert forall|i: int| 0 <= i < fewer.len() implies piece_text(#[trigger] fewer[i])
            == parts.drop_last()[i] by {
            assert(fewer[i] == pieces[i]);
        }
        lemma_written(fewer, parts.drop_last());
        assert(piece_text(pieces[pieces.len() - 1]) == parts[parts.len() - 1]);
    }
}

/// What is written as its parts, one run after the other.
proof fn lemma_written_concat(
    a: Seq<Piece>,
    x: Seq<Seq<char>>,
    b: Seq<Piece>,
    y: Seq<Seq<char>>,
)
    requires
        written_as(a, x),
        written_as(b, y),
    ensures
        written_as(a + b, x + y),
{
    assert forall|i: int| 0 <= i < (a + b).len() implies piece_text(#[trigger] (a + b)[i]) == (x
        + y)[i] by {
        if i < a.len() {
            assert((a + b)[i] == a[i]);
        } else {
            assert((a + b)[i] == b[i - a.len()]);
        }
    }
}

/// What the tags are written as that open an element.
proof fn lemma_opening_texts()
    ensures
        piece_text(opens("response"@)) == "<D:response>"@,
        piece_text(opens("href"@)) == "<D:href>"@,
        piece_text(opens("propstat"@)) == "<D:propstat>"@,
        piece_text(opens("prop"@)) == "<D:prop>"@,
        piece_text(opens("status"@)) == "<D:status>"@,
        piece_text(opens("resourcetype"@)) == "<D:resourcetype>"@,
        piece_text(opens("lockdiscovery"@)) == "<D:lockdiscovery>"@,
        piece_text(opens("activelock"@)) == "<D:activelock>"@,
        piece_text(opens("locktype"@)) == "<D:locktype>"@,
        piece_text(opens("lockscope"@)) == "<D:lockscope>"@,
        piece_text(opens("depth"@)) == "<D:depth>"@,
        piece_text(opens("timeout"@)) == "<D:timeout>"@,
        piece_text(opens("locktoken"@)) == "<D:locktoken>"@,
{
    reveal_strlit("<");
    reveal_strlit(">");
    reveal_strlit("D:");
    reveal_strlit("response");
    reveal_strlit("<D:response>");
    reveal_strlit("href");
    reveal_strlit("<D:href>");
    reveal_strlit("propstat");
    reveal_strlit("<D:propstat>");
    reveal_strlit("prop");
    reveal_strlit("<D:prop>");
    reveal_strlit("status");
    reveal_strlit("<D:status>");
    reveal_strlit("resourcetype");
    reveal_strlit("<D:resourcetype>");
    reveal_strlit("lockdiscovery");
    reveal_strlit("<D:lockdiscovery>");
    reveal_strlit("activelock");
    reveal_strlit("<D:activelock>");
    reveal_strlit("locktype");
    reveal_strlit("<D:locktype>");
    reveal_strlit("lockscope");
    reveal_strlit("<D:lockscope>");
    reveal_strlit("depth");
    reveal_strlit("<D:depth>");
    reveal_strlit("timeout");
    reveal_strlit("<D:timeout>");
    reveal_strlit("locktoken");
    reveal_strlit("<D:locktoken>");
    assert(piece_text(opens("response"@)) =~= "<D:response>"@);
    assert(piece_text(opens("href"@)) =~= "<D:href>"@);
    assert(piece_text(opens("propstat"@)) =~= "<D:propstat>"@);
    assert(piece_text(opens("prop"@)) =~= "<D:prop>"@);
    assert(piece_text(opens("status"@)) =~= "<D:status>"@);
    assert(piece_text(opens("resourcetype"@)) =~= "<D:resourcetype>"@);
    assert(piece_text(opens("lockdiscovery"@)) =~= "<D:lockdiscovery>"@);
    assert(piece_text(opens("activelock"@)) =~= "<D:activelock>"@);
    assert(piece_text(opens("locktype"@)) =~= "<D:locktype>"@);
    assert(piece_text(opens("lockscope"@)) =~= "<D:lockscope>"@);
    assert(piece_text(opens("depth"@)) =~= "<D:depth>"@);
    assert(piece_text(opens("timeout"@)) =~= "<D:timeout>"@);
    assert(piece_text(opens("locktoken"@)) =~= "<D:locktoken>"@);
}

/// What the tags are written as that close an element.
proof fn lemma_closing_texts()
    ensures
        "<"@ + ("/D:"@ + "response"@) + ">"@ == "</D:response>"@,
        "<"@ + ("/D:"@ + "href"@) + ">"@ == "</D:href>"@,
        "<"@ + ("/D:"@ + "propstat"@) + ">"@ == "</D:propstat>"@,
        "<"@ + ("/D:"@ + "prop"@) + ">"@ == "</D:prop>"@,
        "<"@ + ("/D:"@ + "status"@) + ">"@ == "</D:status>"@,
        "<"@ + ("/D:"@ + "resourcetype"@) + ">"@ == "</D:resourcetype>"@,
        "<"@ + ("/D:"@ + "lockdiscovery"@) + ">"@ == "</D:lockdiscovery>"@,
        "<"@ + ("/D:"@ + "activelock"@) + ">"@ == "</D:activelock>"@,
        "<"@ + ("/D:"@ + "locktype"@) + ">"@ == "</D:locktype>"@,
        "<"@ + ("/D:"@ + "lockscope"@) + ">"@ == "</D:lockscope>"@,
        "<"@ + ("/D:"@ + "depth"@) + ">"@ == "</D:depth>"@,
        "<"@ + ("/D:"@ + "timeout"@) + ">"@ == "</D:timeout>"@,
        "<"@ + ("/D:"@ + "locktoken"@) + ">"@ == "</D:locktoken>"@,
        "<"@ + ("/D:"@ + "multistatus"@) + ">"@ == "</D:multistatus>"@,
{
    reveal_strlit("<");
    reveal_strlit(">");
    reveal_strlit("/D:");
    reveal_strlit("response");
    reveal_strlit("</D:response>");
    reveal_strlit("href");
    reveal_strlit("</D:href>");
    reveal_strlit("propstat");
    reveal_strlit("</D:propstat>");
    reveal_strlit("prop");
    reveal_strlit("</D:prop>");
    reveal_strlit("status");
    reveal_strlit("</D:status>");
    reveal_strlit("resourcetype");
    reveal_strlit("</D:resourcetype>");
    reveal_strlit("lockdiscovery");
    reveal_strlit("</D:lockdiscovery>");
    reveal_strlit("activelock");
    reveal_strlit("</D:activelock>");
    reveal_strlit("locktype");
    reveal_strlit("</D:locktype>");
    reveal_strlit("lockscope");
    reveal_strlit("</D:lockscope>");
    reveal_strlit("depth");
    reveal_strlit("</D:depth>");
    reveal_strlit("timeout");
    reveal_strlit("</D:timeout>");
    reveal_strlit("locktoken");
    reveal_strlit("</D:locktoken>");
    reveal_strlit("multistatus");
    reveal_strlit("</D:multistatus>");
    assert("<"@ + ("/D:"@ + "response"@) + ">"@ =~= "</D:response>"@);
    assert("<"@ + ("/D:"@ + "href"@) + ">"@ =~= "</D:href>"@);
    assert("<"@ + ("/D:"@ + "propstat"@) + ">"@ =~= "</D:propstat>"@);
    assert("<"@ + ("/D:"@ + "prop"@) + ">"@ =~= "</D:prop>"@);
    assert("<"@ + ("/D:"@ + "status"@) + ">"@ =~= "</D:status>"@);
    assert("<"@ + ("/D:"@ + "resourcetype"@) + ">"@ =~= "</D:resourcetype>"@);
    assert("<"@ + ("/D:"@ + "lockdiscovery"@) + ">"@ =~= "</D:lockdiscovery>"@);
    assert("<"@ + ("/D:"@ + "activelock"@) + ">"@ =~= "</D:activelock>"@);
    assert("<"@ + ("/D:"@ + "locktype"@) + ">"@ =~= "</D:locktype>"@);
    assert("<"@ + ("/D:"@ + "lockscope"@) + ">"@ =~= "</D:lockscope>"@);
    assert("<"@ + ("/D:"@ + "depth"@) + ">"@ =~= "</D:depth>"@);
    assert("<"@ + ("/D:"@ + "timeout"@) + ">"@ =~= "</D:timeout>"@);
    assert("<"@ + ("/D:"@ + "locktoken"@) + ">"@ =~= "</D:locktoken>"@);
    assert("<"@ + ("/D:"@ + "multistatus"@) + ">"@ =~= "</D:multistatus>"@);
}

/// What the elements are written as that hold nothing, and how a document starts.
proof fn lemma_lone_texts()
    ensures
        piece_text(lone("resourcetype"@)) == "<D:resourcetype/>"@,
        piece_text(lone("collection"@)) == "<D:collection/>"@,
        piece_text(lone("write"@)) == "<D:write/>"@,
        piece_text(lone("exclusive"@)) == "<D:exclusive/>"@,
        piece_text(declaration()) == "<?xml version=\"1.0\" encoding=\"utf-8\"?>"@,
        piece_text(opens_root("multistatus"@)) == "<D:multistatus xmlns:D=\"DAV:\">"@,
        piece_text(opens_root("prop"@)) == "<D:prop xmlns:D=\"DAV:\">"@,
{
    reveal_strlit("<");
    reveal_strlit(">");
    reveal_strlit("D:");
    reveal_strlit("/");
    reveal_strlit("resourcetype");
    reveal_strlit("<D:resourcetype/>");
    reveal_strlit("collection");
    reveal_strlit("<D:collection/>");
    reveal_strlit("write");
    reveal_strlit("<D:write/>");
    reveal_strlit("exclusive");
    reveal_strlit("<D:exclusive/>");
    reveal_strlit("?xml version=\"1.0\" encoding=\"utf-8\"?");
    reveal_strlit("<?xml version=\"1.0\" encoding=\"utf-8\"?>");
    reveal_strlit(" xmlns:D=\"DAV:\"");
    reveal_strlit("multistatus");
    reveal_strlit("prop");
    reveal_strlit("<D:multistatus xmlns:D=\"DAV:\">");
    reveal_strlit("<D:prop xmlns:D=\"DAV:\">");
    assert(piece_text(lone("resourcetype"@)) =~= "<D:resourcetype/>"@);
    assert(piece_text(lone("collection"@)) =~= "<D:collection/>"@);
    assert(piece_text(lone("write"@)) =~= "<D:write/>"@);
    assert(piece_text(lone("exclusive"@)) =~= "<D:exclusive/>"@);
    assert(piece_text(declaration()) =~= "<?xml version=\"1.0\" encoding=\"utf-8\"?>"@);
    assert(piece_text(opens_root("multistatus"@)) =~= "<D:multistatus xmlns:D=\"DAV:\">"@);
    assert(piece_text(opens_root("prop"@)) =~= "<D:prop xmlns:D=\"DAV:\">"@);
}

/// A tag that closes an element, with the text before it.
proof fn lemma_close(text: Seq<char>, name: Seq<char>)
    ensures
        piece_text(closes(text, name)) == text + ("<"@ + ("/D:"@ + name) + ">"@),
{
    assert(piece_text(closes(text, name)) =~= text + ("<"@ + ("/D:"@ + name) + ">"@));
}

/// A tag that closes an element, with nothing before it.
proof fn lemma_close_bare(name: Seq<char>)
    ensures
        piece_text(closes(Seq::empty(), name)) == "<"@ + ("/D:"@ + name) + ">"@,
{
    assert(piece_text(closes(Seq::empty(), name)) =~= "<"@ + ("/D:"@ + name) + ">"@);
}

/// A lock as it is written.
proof fn lemma_lock_written(token: Seq<char>)
    ensures
        written_as(discovery_pieces(Some(token)), lock_parts(token)),
{
    let lock = active_lock_pieces(token);
    let all = discovery_pieces(Some(token));
    let parts = lock_parts(token);
    lemma_opening_texts();
    lemma_closing_texts();
    lemma_lone_texts();
    lemma_close_bare("lockdiscovery"@);
    lemma_close_bare("locktype"@);
    lemma_close_bare("lockscope"@);
    lemma_close("0"@, "depth"@);
    lemma_close("Second-600"@, "timeout"@);
    lemma_close(escaped(token), "href"@);
    lemma_close_bare("locktoken"@);
    lemma_close_bare("activelock"@);
    assert(all.len() == 18);
    assert(parts.len() == 18);
    assert forall|i: int| 0 <= i < 18 implies piece_text(#[trigger] all[i]) == parts[i] by {
        if 1 <= i < 17 {
            assert(all[i] == lock[i - 1]);
        }
    }
}

/// The kind of a member as it is written.
proof fn lemma_kind_written(collection: bool)
    ensures
        written_as(kind_pieces(collection), kind_parts(collection)),
{
    lemma_opening_texts();
    lemma_lone_texts();
    lemma_closing_texts();
    lemma_close_bare("resourcetype"@);
}

/// How a line of a listing starts and ends, as it is written.
proof fn lemma_frame_written(href: Seq<char>)
    ensures
        written_as(
            opening_pieces(href),
            seq![
                "<D:response>"@,
                "<D:href>"@,
                escaped(href) + "</D:href>"@,
                "<D:propstat>"@,
                "<D:prop>"@,
            ],
        ),
        written_as(
            ending_pieces(),
            seq![
                "</D:prop>"@,
                "<D:status>"@,
                "HTTP/1.1 200 OK"@ + "</D:status>"@,
                "</D:propstat>"@,
                "</D:response>"@,
            ],
        ),
{
    lemma_opening_texts();
    lemma_closing_texts();
    lemma_close(escaped(href), "href"@);
    lemma_close_bare("prop"@);
    lemma_close("HTTP/1.1 200 OK"@, "status"@);
    lemma_close_bare("propstat"@);
    lemma_close_bare("response"@);
}

/// A line of a listing as it is written.
proof fn lemma_line_written(entry: EntryView)
    ensures
        rendered(entry_pieces(entry)) == line_text(entry),
{
    let opening = seq![
        "<D:response>"@,
        "<D:href>"@,
        escaped(entry.href) + "</D:href>"@,
        "<D:propstat>"@,
        "<D:prop>"@,
    ];
    let lock = match entry.lock {
        Some(token) => lock_parts(token),
        None => Seq::empty(),
    };
    let ending = seq![
        "</D:prop>"@,
        "<D:status>"@,
        "HTTP/1.1 200 OK"@ + "</D:status>"@,
        "</D:propstat>"@,
        "</D:response>"@,
    ];
    lemma_frame_written(entry.href);
    lemma_kind_written(entry.collection);
    if let Some(token) = entry.lock {
        lemma_lock_written(token);
    }
    let kind = kind_parts(entry.collection);
    let a = opening_pieces(entry.href);
    let b = kind_pieces(entry.collection);
    let c = discovery_pieces(entry.lock);
    lemma_written_concat(a, opening, b, kind);
    lemma_written_concat(a + b, opening + kind, c, lock);
    lemma_written_concat(a + b + c, opening + kind + lock, ending_pieces(), ending);
    lemma_written(entry_pieces(entry), opening + kind + lock + ending);
}

/// The lines of a listing as they are written.
proof fn lemma_lines_written(entries: Seq<EntryView>)
    ensures
        rendered(entries_pieces(entries)) == entries.map_values(
            |e: EntryView| line_text(e),
        ).flatten_alt(),
    decreases entries.len(),
{
    let texts = entries.map_values(|e: EntryView| line_text(e));
    if entries.len() > 0 {
        let fewer = entries.drop_last();
        lemma_lines_written(fewer);
        lemma_rendered_concat(entries_pieces(fewer), entry_pieces(entries.last()));
        lemma_line_written(entries.last());
        assert(texts.drop_last() =~= fewer.map_values(|e: EntryView| line_text(e)));
        assert(texts.last() == line_text(entries.last()));
    }
}

// ---------------------------------------------------------------------
// What values stand for
// ---------------------------------------------------------------------

/// A message stands for its parts, header by header.
pub proof fn law_messages_stand_for_their_parts(request: Request, response: Response, i: int)
    ensures
        request@.method == request.method@,
        request@.path == request.path@,
        request@.body == request.body@,
        request@.headers.len() == request.headers@.len(),
        0 <= i < request.headers@.len() ==> request@.headers[i] == (
            request.headers@[i].0@,
            request.headers@[i].1@,
        ),
        response@.status == response.status,
        response@.body == response.body@,
        response@.headers.len() == response.headers@.len(),
        0 <= i < response.headers@.len() ==> response@.headers[i] == (
            response.headers@[i].0@,
            response.headers@[i].1@,
        ),
{
}

/// What arrives, what is listed and what happens stand for their parts, one
/// by one.
pub proof fn law_runs_stand_for_their_parts(
    arrived: Seq<Arrived>,
    members: Seq<Member>,
    events: Seq<Event>,
    lines: Seq<String>,
    i: int,
)
    ensures
        arrived_views(arrived).len() == arrived.len(),
        0 <= i < arrived.len() ==> arrived_views(arrived)[i].bytes == arrived[i].bytes@
            && arrived_views(arrived)[i].origin_uri == arrived[i].origin_uri@,
        member_views(members).len() == members.len(),
        0 <= i < members.len() ==> member_views(members)[i].href == members[i].href@
            && member_views(members)[i].collection == members[i].collection && member_views(
            members,
        )[i].locked == members[i].locked,
        event_views(events).len() == events.len(),
        0 <= i < events.len() ==> event_views(events)[i] == events[i]@,
        line_views(lines).len() == lines.len(),
        0 <= i < lines.len() ==> line_views(lines)[i] == lines[i]@,
{
}

/// What happened stands for what it says, kind by kind, and so does what could
/// not be read and how far a take has come.
pub proof fn law_kinds_stand_for_themselves(event: Event, error: ReadError, taking: Taking)
    ensures
        match event {
            Event::Listed(href) => event@ == EventView::Listed(href@),
            Event::Put(arrived) => event@ matches EventView::Put(a) && a.bytes == arrived.bytes@
                && a.origin_uri == arrived.origin_uri@,
            Event::Got(href) => event@ == EventView::Got(href@),
            Event::Deleted(href) => event@ == EventView::Deleted(href@),
            Event::Created(href) => event@ == EventView::Created(href@),
            Event::Locked(href, token) => event@ == EventView::Locked(href@, token@),
            Event::Unlocked(href) => event@ == EventView::Unlocked(href@),
            Event::Refused(href, status) => event@ == EventView::Refused(href@, status),
        },
        match error {
            ReadError::Partial => error@ == ReadErrorView::Partial,
            ReadError::Refused(e) => error@ matches ReadErrorView::Refused(v) && v.message
                == e.message@ && v.retryable == e.retryable,
        },
        match taking {
            Taking::Locking => taking@ == TakingView::Locking,
            Taking::Fetching { token } => taking@ == TakingView::Fetching { token: token@ },
            Taking::Deleting { token, bytes } => taking@ == TakingView::Deleting {
                token: token@,
                bytes: bytes@,
            },
            Taking::Releasing { token, error } => taking@ == TakingView::Releasing {
                token: token@,
                error: error@,
            },
            Taking::Taken(bytes) => taking@ == TakingView::Taken(bytes@),
            Taking::PassedOver => taking@ == TakingView::PassedOver,
            Taking::Failed(error) => taking@ == TakingView::Failed(error@),
        },
{
}

} // verus!
