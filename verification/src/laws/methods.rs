//! What each method does to any store: when it is granted, what it is
//! answered, what it changes, and what it leaves alone.

use vstd::prelude::*;
use vstd::utf8::encode_utf8;
use crate::laws::server::lemma_methods;
use crate::markup::granted;
use crate::session::{
    grants, href_of, may_write, outcome, parts_of, presented_token, root_store, token_text,
    EventView, StoreView,
};
use crate::stream::ArrivedView;
use crate::text::{decimal, holds_text, trim, trim_end, Class};
use crate::wire::{value_of, RequestView, ResponseView};

verus! {

// ---------------------------------------------------------------------
// Words for what is said below
// ---------------------------------------------------------------------

/// Whether an answer is its status and nothing more.
pub open spec fn is_bare(response: ResponseView, status: int) -> bool {
    response.status == status && response.headers.len() == 0 && response.body.len() == 0
}

/// Whether a request was refused with a status: it says so, is answered with
/// the bare status, and has changed nothing.
pub open spec fn is_refused(
    store: StoreView,
    peer: Seq<char>,
    request: RequestView,
    status: int,
) -> bool {
    let done = outcome(store, peer, request);
    &&& done.event matches EventView::Refused(href, told) && href == href_of(request.path) && told
        == status
    &&& is_bare(done.response, status)
    &&& done.store == store
}

/// Whether a href names a file: its collection is there and holds its name.
pub open spec fn names_file(store: StoreView, href: Seq<char>) -> bool {
    let (collection, name) = parts_of(href);
    store.files.dom().contains(collection) && store.files[collection].dom().contains(name)
}

/// Whether a href is locked and the request does not show its token in `If`,
/// in angle brackets.
pub open spec fn held_from(store: StoreView, request: RequestView) -> bool {
    let href = href_of(request.path);
    store.locks.dom().contains(href) && !(value_of(request.headers, "If"@) matches Some(value)
        && holds_text(value, seq!['<'] + store.locks[href] + seq!['>']))
}

/// The angle brackets around a token.
proof fn lemma_brackets()
    ensures
        "<"@ == seq!['<'],
        ">"@ == seq!['>'],
{
    reveal_strlit("<");
    reveal_strlit(">");
    assert("<"@ =~= seq!['<']);
    assert(">"@ =~= seq!['>']);
}

// ---------------------------------------------------------------------
// Each method
// ---------------------------------------------------------------------

/// GET of a file gives its bytes, and nothing else; of anything else it is
/// refused with 404. Either way nothing changes.
pub proof fn law_get(store: StoreView, peer: Seq<char>, request: RequestView)
    requires
        request.method == "GET"@,
    ensures
        ({
            let href = href_of(request.path);
            let (collection, name) = parts_of(href);
            let done = outcome(store, peer, request);
            if names_file(store, href) {
                &&& done.event == EventView::Got(href)
                &&& done.response.status == 200
                &&& done.response.headers.len() == 0
                &&& done.response.body == store.files[collection][name]
                &&& done.store == store
            } else {
                is_refused(store, peer, request, 404)
            }
        }),
{
    lemma_methods();
}

/// PUT is refused with 409 where its collection is not there, and with 423
/// where the href is locked and its token not shown. Else it stores exactly
/// its body under exactly its name, tells where it came from, and answers 201
/// for a new file and 204 for one that was there. Every other file, every
/// lock and the count of tokens stay.
pub proof fn law_put(store: StoreView, peer: Seq<char>, request: RequestView)
    requires
        request.method == "PUT"@,
    ensures
        ({
            let href = href_of(request.path);
            let (collection, name) = parts_of(href);
            let done = outcome(store, peer, request);
            let key = trim_end(collection, Class::Slash);
            if !store.files.dom().contains(collection) {
                is_refused(store, peer, request, 409)
            } else if held_from(store, request) {
                is_refused(store, peer, request, 423)
            } else {
                &&& done.event == EventView::Put(
                    ArrivedView { origin_uri: "webdav://"@ + peer + href, bytes: request.body },
                )
                &&& is_bare(
                    done.response,
                    if names_file(store, href) {
                        204
                    } else {
                        201
                    },
                )
                &&& done.store.files.dom() == store.files.dom().insert(key)
                &&& done.store.files[key].dom().contains(name)
                &&& done.store.files[key][name] == request.body
                &&& done.store.locks == store.locks
                &&& done.store.issued == store.issued
                &&& forall|c: Seq<char>|
                    c != key && #[trigger] store.files.dom().contains(c) ==> done.store.files[c]
                        == store.files[c]
                &&& forall|n: Seq<char>|
                    n != name ==> (#[trigger] done.store.files[key].dom().contains(n)
                        <==> store.files.dom().contains(key) && store.files[key].dom().contains(n))
                &&& forall|n: Seq<char>|
                    n != name && #[trigger] done.store.files[key].dom().contains(n)
                        ==> done.store.files[key][n] == store.files[key][n]
            }
        }),
{
    lemma_methods();
    lemma_brackets();
    let collection = parts_of(href_of(request.path)).0;
    let key = trim_end(collection, Class::Slash);
    let done = outcome(store, peer, request);
    assert(may_write(store, href_of(request.path), request.headers) == !held_from(store, request));
    if store.files.dom().contains(collection) && !held_from(store, request) {
        assert(done.store.files.dom() =~= store.files.dom().insert(key));
    }
}

/// DELETE is refused with 423 where the href is locked and its token not
/// shown. Where the href names a file, that file is gone and its lock with
/// it, and nothing else. Else, where it is the href of a collection, that
/// collection is gone with all it holds, and every other collection and every
/// lock stay. Else it is refused with 404.
pub proof fn law_delete(store: StoreView, peer: Seq<char>, request: RequestView)
    requires
        request.method == "DELETE"@,
    ensures
        ({
            let href = href_of(request.path);
            let (collection, name) = parts_of(href);
            let done = outcome(store, peer, request);
            if held_from(store, request) {
                is_refused(store, peer, request, 423)
            } else if names_file(store, href) {
                &&& done.event == EventView::Deleted(href)
                &&& is_bare(done.response, 204)
                &&& done.store.files.dom() == store.files.dom()
                &&& done.store.files[collection] == store.files[collection].remove(name)
                &&& forall|c: Seq<char>|
                    c != collection && #[trigger] store.files.dom().contains(c)
                        ==> done.store.files[c] == store.files[c]
                &&& done.store.locks == store.locks.remove(href)
                &&& done.store.issued == store.issued
            } else if store.files.dom().contains(href) {
                &&& done.event == EventView::Deleted(href)
                &&& is_bare(done.response, 204)
                &&& !done.store.files.dom().contains(href)
                &&& forall|c: Seq<char>|
                    c != href ==> (#[trigger] done.store.files.dom().contains(c)
                        <==> store.files.dom().contains(c))
                &&& forall|c: Seq<char>|
                    c != href && #[trigger] store.files.dom().contains(c) ==> done.store.files[c]
                        == store.files[c]
                &&& done.store.locks == store.locks
                &&& done.store.issued == store.issued
            } else {
                is_refused(store, peer, request, 404)
            }
        }),
{
    lemma_methods();
    lemma_brackets();
    let href = href_of(request.path);
    let collection = parts_of(href).0;
    let done = outcome(store, peer, request);
    assert(may_write(store, href, request.headers) == !held_from(store, request));
    if !held_from(store, request) && names_file(store, href) {
        assert(done.store.files.dom() =~= store.files.dom());
    }
}

/// MKCOL is granted wherever there is no collection of that href yet, at
/// whatever depth, and whatever else the store holds: the collection is then
/// there and empty, and nothing else has changed. It is refused, with 405,
/// only where the collection is there already.
pub proof fn law_mkcol(store: StoreView, peer: Seq<char>, request: RequestView)
    requires
        request.method == "MKCOL"@,
    ensures
        ({
            let href = href_of(request.path);
            let done = outcome(store, peer, request);
            if store.files.dom().contains(href) {
                is_refused(store, peer, request, 405)
            } else {
                &&& done.event == EventView::Created(href)
                &&& is_bare(done.response, 201)
                &&& done.store.files.dom().contains(href)
                &&& forall|name: Seq<char>| !(#[trigger] done.store.files[href].dom().contains(name))
                &&& forall|c: Seq<char>|
                    c != href ==> (#[trigger] done.store.files.dom().contains(c)
                        <==> store.files.dom().contains(c))
                &&& forall|c: Seq<char>| #[trigger]
                    store.files.dom().contains(c) ==> done.store.files[c] == store.files[c]
                &&& done.store.locks == store.locks
                &&& done.store.issued == store.issued
            }
        }),
{
    lemma_methods();
}

/// LOCK is refused with 404 where there is no file, and with 423 where the
/// file is locked. Else the file is locked with the next token, which is told
/// in the event, in the `Lock-Token` header and in the body, and nothing else
/// has changed.
pub proof fn law_lock(store: StoreView, peer: Seq<char>, request: RequestView)
    requires
        request.method == "LOCK"@,
    ensures
        ({
            let href = href_of(request.path);
            let done = outcome(store, peer, request);
            let token = "opaquelocktoken:xmip-"@ + decimal(store.issued + 1);
            if !names_file(store, href) {
                is_refused(store, peer, request, 404)
            } else if store.locks.dom().contains(href) {
                is_refused(store, peer, request, 423)
            } else {
                &&& done.event == EventView::Locked(href, token)
                &&& done.response.status == 200
                &&& done.response.headers == seq![
                    ("Lock-Token"@, seq!['<'] + token + seq!['>']),
                    ("Content-Type"@, "application/xml; charset=utf-8"@),
                ]
                &&& done.response.body == encode_utf8(granted(token))
                &&& done.store.files == store.files
                &&& done.store.locks == store.locks.insert(href, token)
                &&& done.store.issued == store.issued + 1
            }
        }),
{
    lemma_methods();
    lemma_brackets();
    let done = outcome(store, peer, request);
    if names_file(store, href_of(request.path)) && !store.locks.dom().contains(
        href_of(request.path),
    ) {
        let token = "opaquelocktoken:xmip-"@ + decimal(store.issued + 1);
        assert(token == token_text(store.issued + 1));
        assert(done.response.headers =~= seq![
            ("Lock-Token"@, seq!['<'] + token + seq!['>']),
            ("Content-Type"@, "application/xml; charset=utf-8"@),
        ]);
    }
}

/// UNLOCK is refused with 409 where there is no lock, and with 403 where the
/// token it shows in `Lock-Token`, its angle brackets trimmed off, is not the
/// lock's. Else that lock is gone, and nothing else has changed.
pub proof fn law_unlock(store: StoreView, peer: Seq<char>, request: RequestView)
    requires
        request.method == "UNLOCK"@,
    ensures
        ({
            let href = href_of(request.path);
            let done = outcome(store, peer, request);
            let shown = match value_of(request.headers, "Lock-Token"@) {
                Some(value) => trim(value, Class::Angle),
                None => Seq::empty(),
            };
            if !store.locks.dom().contains(href) {
                is_refused(store, peer, request, 409)
            } else if store.locks[href] != shown {
                is_refused(store, peer, request, 403)
            } else {
                &&& done.event == EventView::Unlocked(href)
                &&& is_bare(done.response, 204)
                &&& done.store.files == store.files
                &&& done.store.locks == store.locks.remove(href)
                &&& done.store.issued == store.issued
            }
        }),
{
    lemma_methods();
    assert(presented_token(request.headers) == match value_of(request.headers, "Lock-Token"@) {
        Some(value) => trim(value, Class::Angle),
        None => Seq::empty(),
    });
}

/// PROPFIND is refused with 404 where the href is neither of a collection nor
/// of a file. Else it answers 207 with XML. Either way nothing changes.
pub proof fn law_propfind(store: StoreView, peer: Seq<char>, request: RequestView)
    requires
        request.method == "PROPFIND"@,
    ensures
        ({
            let href = href_of(request.path);
            let done = outcome(store, peer, request);
            if store.files.dom().contains(href) || names_file(store, href) {
                &&& done.event == EventView::Listed(href)
                &&& done.response.status == 207
                &&& done.response.headers == seq![
                    ("Content-Type"@, "application/xml; charset=utf-8"@),
                ]
                &&& done.store == store
            } else {
                is_refused(store, peer, request, 404)
            }
        }),
{
    lemma_methods();
    let done = outcome(store, peer, request);
    if !(done.event is Refused) {
        assert(done.response.headers =~= seq![
            ("Content-Type"@, "application/xml; charset=utf-8"@),
        ]);
    }
}

/// Any other method is refused with 405.
pub proof fn law_other_methods(store: StoreView, peer: Seq<char>, request: RequestView)
    requires
        request.method != "PROPFIND"@,
        request.method != "GET"@,
        request.method != "PUT"@,
        request.method != "DELETE"@,
        request.method != "MKCOL"@,
        request.method != "LOCK"@,
        request.method != "UNLOCK"@,
    ensures
        is_refused(store, peer, request, 405),
{
}

/// Who asks does not matter, but for the URI that a stored file is told to
/// come from.
pub proof fn law_peer_does_not_matter(
    store: StoreView,
    one: Seq<char>,
    other: Seq<char>,
    request: RequestView,
)
    ensures
        outcome(store, one, request).store == outcome(store, other, request).store,
        outcome(store, one, request).response == outcome(store, other, request).response,
        !(outcome(store, one, request).event is Put) ==> outcome(store, one, request).event
            == outcome(store, other, request).event,
{
}

// ---------------------------------------------------------------------
// One method after another
// ---------------------------------------------------------------------

/// A collection that is removed is gone with all it held: no file of it is
/// found, it is not listed, nothing can be stored in it, and it can be
/// created again.
pub proof fn law_deleted_collection_is_gone(
    store: StoreView,
    peer: Seq<char>,
    delete: RequestView,
    after: RequestView,
)
    requires
        delete.method == "DELETE"@,
        !names_file(store, href_of(delete.path)),
        outcome(store, peer, delete).event is Deleted,
    ensures
        ({
            let gone = outcome(store, peer, delete).store;
            let collection = href_of(delete.path);
            let href = href_of(after.path);
            let inside = parts_of(href).0 == collection;
            &&& after.method == "GET"@ && inside ==> is_refused(gone, peer, after, 404)
            &&& after.method == "PUT"@ && inside ==> is_refused(gone, peer, after, 409)
            &&& after.method == "LOCK"@ && inside ==> is_refused(gone, peer, after, 404)
            &&& after.method == "PROPFIND"@ && href == collection ==> is_refused(
                gone,
                peer,
                after,
                404,
            )
            &&& after.method == "MKCOL"@ && href == collection ==> outcome(gone, peer, after).event
                == EventView::Created(collection)
        }),
{
    lemma_methods();
    law_delete(store, peer, delete);
    let gone = outcome(store, peer, delete).store;
    if after.method == "GET"@ {
        law_get(gone, peer, after);
    } else if after.method == "PUT"@ {
        law_put(gone, peer, after);
    } else if after.method == "LOCK"@ {
        law_lock(gone, peer, after);
    } else if after.method == "PROPFIND"@ {
        law_propfind(gone, peer, after);
    } else if after.method == "MKCOL"@ {
        law_mkcol(gone, peer, after);
    }
}

/// A collection that is created can be stored in and listed at once, unless
/// what is stored is locked.
pub proof fn law_created_collection_can_be_used(
    store: StoreView,
    peer: Seq<char>,
    mkcol: RequestView,
    after: RequestView,
)
    requires
        mkcol.method == "MKCOL"@,
        !store.files.dom().contains(href_of(mkcol.path)),
    ensures
        ({
            let made = outcome(store, peer, mkcol).store;
            let collection = href_of(mkcol.path);
            let href = href_of(after.path);
            &&& after.method == "PUT"@ && parts_of(href).0 == collection && !store.locks.dom().contains(
                href,
            ) ==> outcome(made, peer, after).event is Put && outcome(
                made,
                peer,
                after,
            ).response.status == 201
            &&& after.method == "PROPFIND"@ && href == collection ==> outcome(
                made,
                peer,
                after,
            ).event == EventView::Listed(collection)
        }),
{
    lemma_methods();
    law_mkcol(store, peer, mkcol);
    let made = outcome(store, peer, mkcol).store;
    if after.method == "PUT"@ {
        law_put(made, peer, after);
        if parts_of(href_of(after.path)).0 == href_of(mkcol.path) {
            assert(!made.files[href_of(mkcol.path)].dom().contains(
                parts_of(href_of(after.path)).1,
            ));
        }
    } else if after.method == "PROPFIND"@ {
        law_propfind(made, peer, after);
    }
}

/// A session starts with a root that holds nothing, no lock, and no token
/// handed out: storing in the root is granted, and nothing else is there.
pub proof fn law_sessions_start_empty(collection: Seq<char>, name: Seq<char>)
    ensures
        root_store().files.dom().contains(collection) <==> collection.len() == 0,
        !root_store().files[Seq::<char>::empty()].dom().contains(name),
        !root_store().locks.dom().contains(collection),
        root_store().issued == 0,
{
    if collection.len() == 0 {
        assert(collection =~= Seq::<char>::empty());
    }
}

/// What a store says of a collection and of a file is what its tables hold.
pub proof fn law_store_says_what_it_holds(
    store: StoreView,
    collection: Seq<char>,
    name: Seq<char>,
)
    ensures
        store.has_file(collection, name) <==> store.files.dom().contains(collection)
            && store.files[collection].dom().contains(name),
        store.files.dom().contains(collection) ==> store.folder(collection)
            == store.files[collection],
        !store.files.dom().contains(collection) ==> store.folder(collection).dom()
            == Set::<Seq<char>>::empty(),
{
    assert(Map::<Seq<char>, Seq<u8>>::empty().dom() =~= Set::<Seq<char>>::empty());
}

/// A lock is granted exactly where there is a file and no lock on it.
pub proof fn law_grants(store: StoreView, href: Seq<char>)
    ensures
        grants(store, href) <==> names_file(store, href) && !store.locks.dom().contains(href),
{
}

} // verus!
