//! What a session promises of its store: what is stored is what is fetched,
//! what is refused changes nothing, and one lock is one claim.

use vstd::prelude::*;
use crate::session::{
    href_of, outcome, parts_of, presented_token, refused, root_store, token_text, EventView,
    StoreView,
};
use crate::text::{decimal, holds_text, lemma_decimal, lemma_rfind, rfind, trim_end, Class};
use crate::wire::{succeeded, value_of, RequestView, ResponseView};

verus! {

// ---------------------------------------------------------------------
// Paths
// ---------------------------------------------------------------------

/// No two methods have the same name.
pub proof fn lemma_methods()
    ensures
        "PROPFIND"@ != "GET"@,
        "PROPFIND"@ != "PUT"@,
        "PROPFIND"@ != "DELETE"@,
        "PROPFIND"@ != "MKCOL"@,
        "PROPFIND"@ != "LOCK"@,
        "PROPFIND"@ != "UNLOCK"@,
        "GET"@ != "PUT"@,
        "GET"@ != "DELETE"@,
        "GET"@ != "MKCOL"@,
        "GET"@ != "LOCK"@,
        "GET"@ != "UNLOCK"@,
        "PUT"@ != "DELETE"@,
        "PUT"@ != "MKCOL"@,
        "PUT"@ != "LOCK"@,
        "PUT"@ != "UNLOCK"@,
        "DELETE"@ != "MKCOL"@,
        "DELETE"@ != "LOCK"@,
        "DELETE"@ != "UNLOCK"@,
        "MKCOL"@ != "LOCK"@,
        "MKCOL"@ != "UNLOCK"@,
        "LOCK"@ != "UNLOCK"@,
{
    reveal_strlit("PROPFIND");
    reveal_strlit("GET");
    reveal_strlit("PUT");
    reveal_strlit("DELETE");
    reveal_strlit("MKCOL");
    reveal_strlit("LOCK");
    reveal_strlit("UNLOCK");
    assert("PROPFIND"@.len() == 8);
    assert("GET"@.len() == 3 && "GET"@[0] == 'G');
    assert("PUT"@.len() == 3 && "PUT"@[0] == 'P');
    assert("DELETE"@.len() == 6 && "DELETE"@[0] == 'D');
    assert("MKCOL"@.len() == 5);
    assert("LOCK"@.len() == 4);
    assert("UNLOCK"@.len() == 6 && "UNLOCK"@[0] == 'U');
}

/// What is trimmed once is trimmed.
pub proof fn lemma_trim_end_twice(text: Seq<char>)
    ensures
        trim_end(trim_end(text, Class::Slash), Class::Slash) == trim_end(text, Class::Slash),
    decreases text.len(),
{
    if text.len() > 0 && text.last() == '/' {
        lemma_trim_end_twice(text.drop_last());
    }
}

/// Whether a href names a member of a collection: there is a slash in it, and
/// none at its end.
pub open spec fn names_member(href: Seq<char>) -> bool {
    rfind(href, '/') is Some && trim_end(href, Class::Slash) == href
}

/// A name without slashes in it.
pub open spec fn plain_name(name: Seq<char>) -> bool {
    name.len() > 0 && forall|i: int| 0 <= i < name.len() ==> #[trigger] name[i] != '/'
}

/// A collection, a slash and a name are the parts of the href they make.
pub proof fn lemma_parts_of_member(collection: Seq<char>, name: Seq<char>)
    requires
        plain_name(name),
    ensures
        parts_of(collection + "/"@ + name) == (collection, name),
        names_member(collection + "/"@ + name),
{
    let href = collection + "/"@ + name;
    let at = collection.len() as int;
    reveal_strlit("/");
    assert(href[at] == '/');
    lemma_rfind(href, '/');
    let found = rfind(href, '/')->0;
    assert(rfind(href, '/') is Some);
    if found > at {
        assert(href[found] == name[found - at - 1]);
    }
    assert(found == at);
    assert(href.take(at) =~= collection);
    assert(href.skip(at + 1) =~= name);
    assert(href.last() == name[name.len() - 1]);
}

// ---------------------------------------------------------------------
// What is refused
// ---------------------------------------------------------------------

/// A request that is refused leaves the store as it was and is answered with
/// its bare status, which is no success; any other is answered with one.
pub proof fn law_refusal_changes_nothing(store: StoreView, peer: Seq<char>, request: RequestView)
    ensures
        match outcome(store, peer, request).event {
            EventView::Refused(href, status) => outcome(store, peer, request) == refused(
                store,
                href_of(request.path),
                status,
            ) && !succeeded(status),
            _ => succeeded(outcome(store, peer, request).response.status),
        },
{
}

/// Looking changes nothing: what a listing or a fetch leaves is what it
/// found.
pub proof fn law_looking_changes_nothing(store: StoreView, peer: Seq<char>, request: RequestView)
    requires
        request.method == "PROPFIND"@ || request.method == "GET"@,
    ensures
        outcome(store, peer, request).store == store,
{
    lemma_methods();
}

/// A trailing slash does not matter: with one or without, a request comes to
/// the same, and is answered the same.
pub proof fn law_trailing_slash_does_not_matter(
    store: StoreView,
    peer: Seq<char>,
    without: RequestView,
    with: RequestView,
)
    requires
        with.method == without.method,
        with.headers == without.headers,
        with.body == without.body,
        with.path == without.path + "/"@,
    ensures
        outcome(store, peer, with) == outcome(store, peer, without),
{
    reveal_strlit("/");
    assert(with.path.last() == '/');
    assert(with.path.drop_last() =~= without.path);
    assert(href_of(with.path) == href_of(without.path));
}

// ---------------------------------------------------------------------
// What is stored
// ---------------------------------------------------------------------

/// Whether every collection is keyed by its path without a trailing slash.
pub open spec fn tidy(store: StoreView) -> bool {
    forall|collection: Seq<char>| #[trigger]
        store.files.dom().contains(collection) ==> trim_end(collection, Class::Slash) == collection
}

/// Collections stay keyed by their paths without a trailing slash, whatever
/// is asked.
pub proof fn law_collections_stay_tidy(store: StoreView, peer: Seq<char>, request: RequestView)
    requires
        tidy(store),
    ensures
        tidy(outcome(store, peer, request).store),
{
    lemma_trim_end_twice(request.path);
    let collection = parts_of(href_of(request.path)).0;
    lemma_trim_end_twice(collection);
}

/// What is stored is what is fetched: the bytes of a PUT come back, byte for
/// byte, to whoever GETs its href next, which changes nothing. The PUT
/// changes that one file only: every other file, every collection and every
/// lock is as it was.
pub proof fn law_put_then_get(
    store: StoreView,
    writer: Seq<char>,
    put: RequestView,
    reader: Seq<char>,
    get: RequestView,
)
    requires
        tidy(store),
        put.method == "PUT"@,
        outcome(store, writer, put).event is Put,
        get.method == "GET"@,
        href_of(get.path) == href_of(put.path),
    ensures
        outcome(store, writer, put).event == EventView::Put(
            crate::stream::ArrivedView {
                origin_uri: "webdav://"@ + writer + href_of(put.path),
                bytes: put.body,
            },
        ),
        outcome(outcome(store, writer, put).store, reader, get).event == EventView::Got(
            href_of(get.path),
        ),
        outcome(outcome(store, writer, put).store, reader, get).response == ResponseView::plain(
            200,
        ).carrying(put.body),
        outcome(outcome(store, writer, put).store, reader, get).store == outcome(
            store,
            writer,
            put,
        ).store,
        outcome(store, writer, put).store.files.dom() == store.files.dom(),
        outcome(store, writer, put).store.locks == store.locks,
        outcome(store, writer, put).store.issued == store.issued,
        forall|collection: Seq<char>, name: Seq<char>|
            #![trigger store.has_file(collection, name)]
            (collection, name) != parts_of(href_of(put.path)) ==> {
                let after = outcome(store, writer, put).store;
                &&& after.has_file(collection, name) == store.has_file(collection, name)
                &&& store.has_file(collection, name) ==> after.folder(collection)[name]
                    == store.folder(collection)[name]
            },
{
    lemma_methods();
    let parts = parts_of(href_of(put.path));
    assert(parts == (parts.0, parts.1));
    assert(outcome(store, writer, put).store.files.dom() =~= store.files.dom());
}

/// Whether a request leaves the file `name` of `collection` alone: it neither
/// stores it, nor removes it, nor removes its collection.
pub open spec fn spares(
    store: StoreView,
    peer: Seq<char>,
    request: RequestView,
    collection: Seq<char>,
    name: Seq<char>,
) -> bool {
    let href = href_of(request.path);
    let parts = parts_of(href);
    match outcome(store, peer, request).event {
        EventView::Put(_) => parts != (collection, name),
        EventView::Deleted(_) => parts != (collection, name) && (store.has_file(parts.0, parts.1)
            || href != collection),
        _ => true,
    }
}

/// A file stays as it is until it is itself stored again or removed, or its
/// collection is removed.
pub proof fn law_files_stay(
    store: StoreView,
    peer: Seq<char>,
    request: RequestView,
    collection: Seq<char>,
    name: Seq<char>,
)
    requires
        tidy(store),
        store.has_file(collection, name),
        spares(store, peer, request, collection, name),
    ensures
        outcome(store, peer, request).store.has_file(collection, name),
        outcome(store, peer, request).store.folder(collection)[name] == store.folder(
            collection,
        )[name],
{
    lemma_methods();
    let parts = parts_of(href_of(request.path));
    assert(parts == (parts.0, parts.1));
}

/// What is removed is gone: no fetch finds it.
pub proof fn law_deleted_is_gone(
    store: StoreView,
    peer: Seq<char>,
    delete: RequestView,
    reader: Seq<char>,
    get: RequestView,
)
    requires
        delete.method == "DELETE"@,
        outcome(store, peer, delete).event is Deleted,
        get.method == "GET"@,
        href_of(get.path) == href_of(delete.path),
    ensures
        outcome(outcome(store, peer, delete).store, reader, get) == refused(
            outcome(store, peer, delete).store,
            href_of(get.path),
            404,
        ),
{
    lemma_methods();
}

/// A collection that is created is there, empty, and is not created twice.
pub proof fn law_created_once(
    store: StoreView,
    peer: Seq<char>,
    first: RequestView,
    other: Seq<char>,
    second: RequestView,
)
    requires
        first.method == "MKCOL"@,
        outcome(store, peer, first).event is Created,
        second.method == "MKCOL"@,
        href_of(second.path) == href_of(first.path),
    ensures
        outcome(store, peer, first).store.files.dom().contains(href_of(first.path)),
        outcome(store, peer, first).store.folder(href_of(first.path)) == Map::<
            Seq<char>,
            Seq<u8>,
        >::empty(),
        outcome(outcome(store, peer, first).store, other, second) == refused(
            outcome(store, peer, first).store,
            href_of(second.path),
            405,
        ),
{
    lemma_methods();
}

// ---------------------------------------------------------------------
// What is locked
// ---------------------------------------------------------------------

/// Whether a request shows a lock's token, in `If` or in `Lock-Token`.
pub open spec fn shows(headers: Seq<(Seq<char>, Seq<char>)>, token: Seq<char>) -> bool {
    ||| value_of(headers, "If"@) matches Some(value) && holds_text(value, "<"@ + token + ">"@)
    ||| presented_token(headers) == token
}

/// A lock is exclusive: once one LOCK is granted, the next one on the same
/// href is answered 423, whoever asks, and changes nothing.
pub proof fn law_lock_is_exclusive(
    store: StoreView,
    holder: Seq<char>,
    first: RequestView,
    other: Seq<char>,
    second: RequestView,
)
    requires
        first.method == "LOCK"@,
        outcome(store, holder, first).event is Locked,
        second.method == "LOCK"@,
        href_of(second.path) == href_of(first.path),
    ensures
        outcome(outcome(store, holder, first).store, other, second) == refused(
            outcome(store, holder, first).store,
            href_of(second.path),
            423,
        ),
{
    lemma_methods();
}

/// A lock holds: whatever is asked without its token, it stays, and so does
/// its token.
pub proof fn law_lock_holds(
    store: StoreView,
    peer: Seq<char>,
    request: RequestView,
    href: Seq<char>,
)
    requires
        store.locks.dom().contains(href),
        !shows(request.headers, store.locks[href]),
    ensures
        outcome(store, peer, request).store.locks.dom().contains(href),
        outcome(store, peer, request).store.locks[href] == store.locks[href],
{
}

/// What is locked is not written without the token: storing and removing are
/// answered 423, and giving the lock back 403, and nothing changes.
pub proof fn law_locked_is_refused(store: StoreView, peer: Seq<char>, request: RequestView)
    requires
        store.locks.dom().contains(href_of(request.path)),
        !shows(request.headers, store.locks[href_of(request.path)]),
    ensures
        request.method == "PUT"@ && store.files.dom().contains(
            parts_of(href_of(request.path)).0,
        ) ==> outcome(store, peer, request) == refused(store, href_of(request.path), 423),
        request.method == "DELETE"@ ==> outcome(store, peer, request) == refused(
            store,
            href_of(request.path),
            423,
        ),
        request.method == "UNLOCK"@ ==> outcome(store, peer, request) == refused(
            store,
            href_of(request.path),
            403,
        ),
{
    lemma_methods();
}

/// A lock given back with its token is as if it had never been, but that its
/// token is not handed out again.
pub proof fn law_unlock_undoes_lock(
    store: StoreView,
    holder: Seq<char>,
    lock: RequestView,
    peer: Seq<char>,
    unlock: RequestView,
)
    requires
        lock.method == "LOCK"@,
        outcome(store, holder, lock).event is Locked,
        unlock.method == "UNLOCK"@,
        href_of(unlock.path) == href_of(lock.path),
        presented_token(unlock.headers) == token_text(store.issued + 1),
    ensures
        outcome(outcome(store, holder, lock).store, peer, unlock).event == EventView::Unlocked(
            href_of(unlock.path),
        ),
        outcome(outcome(store, holder, lock).store, peer, unlock).response == ResponseView::plain(
            204,
        ),
        outcome(outcome(store, holder, lock).store, peer, unlock).store == (StoreView {
            issued: store.issued + 1,
            ..store
        }),
{
    lemma_methods();
    let href = href_of(lock.path);
    assert(!store.locks.dom().contains(href));
    assert(store.locks.insert(href, token_text(store.issued + 1)).remove(href) =~= store.locks);
}

/// The delete takes the lock with it: whoever holds the lock removes the file
/// by showing its token, and neither is left.
pub proof fn law_delete_takes_the_lock(
    store: StoreView,
    holder: Seq<char>,
    lock: RequestView,
    delete: RequestView,
)
    requires
        lock.method == "LOCK"@,
        outcome(store, holder, lock).event is Locked,
        delete.method == "DELETE"@,
        href_of(delete.path) == href_of(lock.path),
        value_of(delete.headers, "If"@) matches Some(value) && holds_text(
            value,
            "<"@ + token_text(store.issued + 1) + ">"@,
        ),
    ensures
        ({
            let href = href_of(lock.path);
            let (collection, name) = parts_of(href);
            let done = outcome(outcome(store, holder, lock).store, holder, delete);
            &&& done.event == EventView::Deleted(href)
            &&& done.response == ResponseView::plain(204)
            &&& done.store == (StoreView {
                files: store.files.insert(collection, store.files[collection].remove(name)),
                locks: store.locks,
                issued: store.issued + 1,
            })
        }),
{
    lemma_methods();
    let href = href_of(lock.path);
    assert(store.locks.insert(href, token_text(store.issued + 1)).remove(href) =~= store.locks);
}

// ---------------------------------------------------------------------
// Tokens
// ---------------------------------------------------------------------

/// Whether every token held was handed out, and no two hrefs hold the same.
pub open spec fn tokens_apart(store: StoreView) -> bool {
    &&& forall|href: Seq<char>| #[trigger]
        store.locks.dom().contains(href) ==> exists|n: nat|
            1 <= n <= store.issued && store.locks[href] == #[trigger] token_text(n)
    &&& forall|a: Seq<char>, b: Seq<char>| #[trigger]
        store.locks.dom().contains(a) && #[trigger] store.locks.dom().contains(b)
            && store.locks[a] == store.locks[b] ==> a == b
}

/// No two tokens that are handed out are the same.
pub proof fn lemma_token_text(a: nat, b: nat)
    requires
        token_text(a) == token_text(b),
    ensures
        a == b,
{
    let start = "opaquelocktoken:xmip-"@;
    let n = start.len() as int;
    assert(token_text(a).skip(n) =~= decimal(a));
    assert(token_text(b).skip(n) =~= decimal(b));
    lemma_decimal(a);
    lemma_decimal(b);
}

/// No two locks have one token: whatever is asked, the tokens held stay
/// apart, and a token that is granted is none of those held.
pub proof fn law_tokens_stay_apart(store: StoreView, peer: Seq<char>, request: RequestView)
    requires
        tokens_apart(store),
    ensures
        tokens_apart(outcome(store, peer, request).store),
        outcome(store, peer, request).event matches EventView::Locked(_, token) ==> forall|
            href: Seq<char>,
        | #[trigger]
            store.locks.dom().contains(href) ==> store.locks[href] != token,
{
    let after = outcome(store, peer, request).store;
    let href = href_of(request.path);
    let token = token_text(store.issued + 1);
    assert forall|h: Seq<char>| #[trigger] store.locks.dom().contains(h) implies store.locks[h]
        != token by {
        let n = choose|n: nat|
            1 <= n <= store.issued && store.locks[h] == #[trigger] token_text(n);
        if store.locks[h] == token {
            lemma_token_text(n, store.issued + 1);
        }
    }
    assert(after.locks == store.locks || after.locks == store.locks.remove(href) || (after.locks
        == store.locks.insert(href, token) && after.issued == store.issued + 1));
    assert(after.issued >= store.issued);
    assert forall|h: Seq<char>| #[trigger] after.locks.dom().contains(h) implies exists|n: nat|
        1 <= n <= after.issued && after.locks[h] == #[trigger] token_text(n) by {
        if store.locks.dom().contains(h) && after.locks[h] == store.locks[h] {
            let n = choose|n: nat|
                1 <= n <= store.issued && store.locks[h] == #[trigger] token_text(n);
            assert(1 <= n <= after.issued && after.locks[h] == token_text(n));
        } else {
            assert(after.locks[h] == token_text(after.issued));
        }
    }
}

/// The store that a run of requests leaves, each from its own peer.
pub open spec fn store_after(store: StoreView, asked: Seq<(Seq<char>, RequestView)>) -> StoreView
    decreases asked.len(),
{
    if asked.len() == 0 {
        store
    } else {
        let (peer, request) = asked.last();
        outcome(store_after(store, asked.drop_last()), peer, request).store
    }
}

/// What the request `i` of a run does.
pub open spec fn event_of(
    store: StoreView,
    asked: Seq<(Seq<char>, RequestView)>,
    i: int,
) -> EventView {
    outcome(store_after(store, asked.take(i)), asked[i].0, asked[i].1).event
}

/// The number of tokens handed out never falls, whatever is asked.
pub proof fn law_issued_never_falls(store: StoreView, asked: Seq<(Seq<char>, RequestView)>)
    ensures
        store.issued <= store_after(store, asked).issued,
    decreases asked.len(),
{
    if asked.len() > 0 {
        law_issued_never_falls(store, asked.drop_last());
    }
}

/// A run goes on from where its first part left off.
proof fn lemma_store_after(store: StoreView, asked: Seq<(Seq<char>, RequestView)>, i: int)
    requires
        0 <= i <= asked.len(),
    ensures
        store_after(store, asked) == store_after(store_after(store, asked.take(i)), asked.skip(i)),
    decreases asked.len() - i,
{
    if i == asked.len() {
        assert(asked.take(i) =~= asked);
        assert(asked.skip(i).len() == 0);
    } else {
        let fewer = asked.drop_last();
        lemma_store_after(store, fewer, i);
        assert(fewer.take(i) =~= asked.take(i));
        assert(asked.skip(i).drop_last() =~= fewer.skip(i));
        assert(asked.skip(i).last() == asked.last());
    }
}

/// No token is ever granted again: of two locks granted along any run of
/// requests, from whatever peers, the tokens differ, whatever came between
/// them, and also where the first was given back or went with its file.
pub proof fn law_no_token_is_granted_again(
    store: StoreView,
    asked: Seq<(Seq<char>, RequestView)>,
    i: int,
    j: int,
)
    requires
        0 <= i < j < asked.len(),
        event_of(store, asked, i) is Locked,
        event_of(store, asked, j) is Locked,
    ensures
        event_of(store, asked, i)->Locked_1 != event_of(store, asked, j)->Locked_1,
{
    let first = store_after(store, asked.take(i));
    let second = store_after(store, asked.take(j));
    lemma_store_after(store, asked.take(j), i + 1);
    assert(asked.take(j).take(i + 1) =~= asked.take(i + 1));
    assert(asked.take(i + 1).drop_last() =~= asked.take(i));
    assert(asked.take(i + 1).last() == asked[i]);
    let between = store_after(store, asked.take(i + 1));
    law_issued_never_falls(between, asked.take(j).skip(i + 1));
    assert(between.issued == first.issued + 1);
    assert(second.issued >= between.issued);
    if token_text(first.issued + 1) == token_text(second.issued + 1) {
        lemma_token_text(first.issued + 1, second.issued + 1);
    }
}

/// What is put into a store is there, and nothing else of it has changed.
pub proof fn law_inserted_is_there(
    store: StoreView,
    collection: Seq<char>,
    name: Seq<char>,
    bytes: Seq<u8>,
    other: (Seq<char>, Seq<char>),
)
    ensures
        store.put(collection, name, bytes).has_file(collection, name),
        store.put(collection, name, bytes).folder(collection)[name] == bytes,
        store.put(collection, name, bytes).locks == store.locks,
        other != (collection, name) ==> {
            let after = store.put(collection, name, bytes);
            &&& after.has_file(other.0, other.1) == store.has_file(other.0, other.1)
            &&& store.has_file(other.0, other.1) ==> after.folder(other.0)[other.1]
                == store.folder(other.0)[other.1]
        },
{
    assert(other == (other.0, other.1));
}

/// A session starts in order: its collections are keyed as they should be,
/// and no tokens are out.
pub proof fn law_sessions_start_in_order()
    ensures
        tidy(root_store()),
        tokens_apart(root_store()),
{
    assert(trim_end(Seq::<char>::empty(), Class::Slash) == Seq::<char>::empty());
}

} // verus!
