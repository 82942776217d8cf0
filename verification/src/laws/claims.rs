//! LOCK is the claim: one is granted, the next is refused until the first is
//! given back, and no two nodes take one file.

use vstd::prelude::*;
use vstd::utf8::encode_utf8;
use crate::client::{
    delete_held_request, lock_request, member_in, members_listed, propfind_request, refusal,
    relative_member, unlock_request,
};
use crate::error::ErrorView;
use crate::laws::exchange::{
    ample, asked, carried, fit_token, heard, law_exchange, law_requests_can_be_written,
    lemma_own_value, reachable,
};
use crate::laws::listing::{law_lock_gives_its_token, law_multistatus_gives_its_members, read_back};
use crate::laws::server::{lemma_methods, shows};
use crate::markup::{granted, multistatus, EntryView};
use crate::receive::{lock_result, success, take_request, take_step, TakingView};
use crate::session::{href_of, listing_of, outcome, parts_of, token_text, StoreView};
use crate::text::{
    decimal, holds_text, is_digit, is_trimmed, lemma_decimal, lemma_text_of, stands_at, trim,
    trim_end, trim_start, Class,
};
use crate::wire::{value_of, RequestView, ResponseView};
use crate::xml::MemberView;

verus! {

// ---------------------------------------------------------------------
// Tokens, there and back
// ---------------------------------------------------------------------

/// A token that is handed out has nothing to trim off it.
pub proof fn lemma_token_trimmed(n: nat)
    ensures
        trim(token_text(n), Class::White) == token_text(n),
        is_trimmed(token_text(n), Class::Angle),
{
    let token = token_text(n);
    reveal_strlit("opaquelocktoken:xmip-");
    lemma_decimal(n);
    assert(token.first() == 'o');
    assert(token.last() == decimal(n)[decimal(n).len() - 1]);
    assert(is_digit(decimal(n)[decimal(n).len() - 1]));
    assert(trim_start(token, Class::White) == token);
    assert(trim_end(token, Class::White) == token);
}

/// A token that is handed out can stand in a header.
pub proof fn lemma_token_fit(n: nat)
    ensures
        fit_token(token_text(n)),
{
    reveal_strlit("opaquelocktoken:xmip-");
    lemma_decimal(n);
    let start = "opaquelocktoken:xmip-"@;
    let token = token_text(n);
    assert forall|i: int| 0 <= i < token.len() implies #[trigger] token[i] != '\n' by {
        if i < start.len() {
            assert(token[i] == start[i]);
        } else {
            assert(is_digit(decimal(n)[i - start.len()]));
        }
    }
}

/// The token in the brackets is the token.
pub proof fn lemma_brackets(token: Seq<char>)
    requires
        is_trimmed(token, Class::Angle),
    ensures
        trim("<"@ + token + ">"@, Class::Angle) == token,
{
    reveal_strlit("<");
    reveal_strlit(">");
    let open = "<"@ + token + ">"@;
    let closed = token + ">"@;
    assert(open.first() == '<');
    assert(open.drop_first() =~= closed);
    if token.len() > 0 {
        assert(closed.first() == token.first());
        assert(trim_start(closed, Class::Angle) == closed);
        assert(closed.last() == '>');
        assert(closed.drop_last() =~= token);
        assert(trim_end(closed, Class::Angle) == trim_end(token, Class::Angle));
    } else {
        assert(closed.first() == '>');
        assert(closed.drop_first() =~= token);
        assert(trim_start(token, Class::Angle) == token);
        assert(trim_start(closed, Class::Angle) == token);
    }
}

/// The token in `If` is found there.
pub proof fn lemma_condition(token: Seq<char>)
    ensures
        holds_text("(<"@ + token + ">)"@, "<"@ + token + ">"@),
{
    reveal_strlit("(<");
    reveal_strlit(">)");
    reveal_strlit("<");
    reveal_strlit(">");
    let whole = "(<"@ + token + ">)"@;
    let part = "<"@ + token + ">"@;
    assert(whole.subrange(1, (1 + part.len()) as int) =~= part);
    assert(stands_at(whole, part, 1));
}

/// The headers of the requests that show a token.
pub proof fn lemma_token_headers(authority: Seq<char>, path: Seq<char>, token: Seq<char>)
    ensures
        value_of(carried(authority, delete_held_request(path, token)).headers, "If"@) == Some(
            "(<"@ + token + ">)"@,
        ),
        value_of(carried(authority, unlock_request(path, token)).headers, "Lock-Token"@) == Some(
            "<"@ + token + ">"@,
        ),
{
    let delete = delete_held_request(path, token);
    let unlock = unlock_request(path, token);
    lemma_own_value(authority, delete, "If"@);
    lemma_own_value(authority, unlock, "Lock-Token"@);
    assert(delete.headers[0] == ("If"@, "(<"@ + token + ">)"@));
    assert(unlock.headers[0] == ("Lock-Token"@, "<"@ + token + ">"@));
}

// ---------------------------------------------------------------------
// Claiming and releasing
// ---------------------------------------------------------------------

/// The store once `href` is locked with a new token.
pub open spec fn locked_by(store: StoreView, href: Seq<char>) -> StoreView {
    StoreView {
        locks: store.locks.insert(href, token_text(store.issued + 1)),
        issued: store.issued + 1,
        ..store
    }
}

/// A claim on a file that nobody holds is granted: the lock is on it, and the
/// token that comes back is the lock's own.
pub proof fn law_claim_is_granted(
    store: StoreView,
    peer: Seq<char>,
    authority: Seq<char>,
    path: Seq<char>,
    limit: nat,
)
    requires
        reachable(authority, path),
        ample(limit),
        encode_utf8(granted(token_text(store.issued + 1))).len() <= limit,
        store.has_file(parts_of(href_of(path)).0, parts_of(href_of(path)).1),
        !store.locks.dom().contains(href_of(path)),
    ensures
        asked(store, peer, authority, lock_request(path), limit).0 == locked_by(store, href_of(path)),
        lock_result(asked(store, peer, authority, lock_request(path), limit).1) == Ok::<
            Seq<char>,
            ErrorView,
        >(token_text(store.issued + 1)),
{
    lemma_methods();
    law_requests_can_be_written(authority, path, "0"@, Seq::empty(), Seq::empty());
    law_exchange(store, peer, authority, lock_request(path), limit);
    let token = token_text(store.issued + 1);
    lemma_text_of(granted(token));
    law_lock_gives_its_token(token);
    lemma_token_trimmed(store.issued + 1);
    let done = outcome(store, peer, carried(authority, lock_request(path)));
    assert(heard(done.response).body == encode_utf8(granted(token)));
}

/// A claim on a file that somebody holds is refused, worth asking for again,
/// and changes nothing.
pub proof fn law_claim_is_refused(
    store: StoreView,
    peer: Seq<char>,
    authority: Seq<char>,
    path: Seq<char>,
    limit: nat,
)
    requires
        reachable(authority, path),
        ample(limit),
        store.has_file(parts_of(href_of(path)).0, parts_of(href_of(path)).1),
        store.locks.dom().contains(href_of(path)),
    ensures
        asked(store, peer, authority, lock_request(path), limit).0 == store,
        lock_result(asked(store, peer, authority, lock_request(path), limit).1) == Err::<
            Seq<char>,
            ErrorView,
        >(refusal(423)),
        asked(store, peer, authority, lock_request(path), limit).1 matches Ok(response)
            && response.status == 423,
        refusal(423).retryable,
{
    lemma_methods();
    law_requests_can_be_written(authority, path, "0"@, Seq::empty(), Seq::empty());
    law_exchange(store, peer, authority, lock_request(path), limit);
}

/// A claim on what is not there is refused for good, and changes nothing.
pub proof fn law_claim_of_nothing(
    store: StoreView,
    peer: Seq<char>,
    authority: Seq<char>,
    path: Seq<char>,
    limit: nat,
)
    requires
        reachable(authority, path),
        ample(limit),
        !store.has_file(parts_of(href_of(path)).0, parts_of(href_of(path)).1),
    ensures
        asked(store, peer, authority, lock_request(path), limit).0 == store,
        lock_result(asked(store, peer, authority, lock_request(path), limit).1) == Err::<
            Seq<char>,
            ErrorView,
        >(refusal(404)),
        asked(store, peer, authority, lock_request(path), limit).1 matches Ok(response)
            && response.status == 404,
        !refusal(404).retryable,
{
    lemma_methods();
    law_requests_can_be_written(authority, path, "0"@, Seq::empty(), Seq::empty());
    law_exchange(store, peer, authority, lock_request(path), limit);
}

/// A claim that is released is as if it had never been, but that its token is
/// not handed out again.
pub proof fn law_release_frees(
    store: StoreView,
    peer: Seq<char>,
    authority: Seq<char>,
    path: Seq<char>,
    limit: nat,
)
    requires
        reachable(authority, path),
        ample(limit),
        encode_utf8(granted(token_text(store.issued + 1))).len() <= limit,
        store.has_file(parts_of(href_of(path)).0, parts_of(href_of(path)).1),
        !store.locks.dom().contains(href_of(path)),
    ensures
        ({
            let held = asked(store, peer, authority, lock_request(path), limit).0;
            let token = token_text(store.issued + 1);
            let freed = asked(held, peer, authority, unlock_request(path, token), limit);
            &&& freed.0 == (StoreView { issued: store.issued + 1, ..store })
            &&& success(freed.1) is Ok
        }),
{
    let href = href_of(path);
    let token = token_text(store.issued + 1);
    lemma_methods();
    law_claim_is_granted(store, peer, authority, path, limit);
    lemma_token_headers(authority, path, token);
    lemma_token_trimmed(store.issued + 1);
    lemma_token_fit(store.issued + 1);
    law_requests_can_be_written(authority, path, "0"@, Seq::empty(), token);
    let held = locked_by(store, href);
    law_exchange(held, peer, authority, unlock_request(path, token), limit);
    lemma_brackets(token);
    assert(store.locks.insert(href, token).remove(href) =~= store.locks);
}

/// A token that is not the lock's does not give it back: the release is
/// refused for good, and changes nothing.
pub proof fn law_release_needs_the_token(
    store: StoreView,
    peer: Seq<char>,
    authority: Seq<char>,
    path: Seq<char>,
    token: Seq<char>,
    limit: nat,
)
    requires
        reachable(authority, path),
        limit <= usize::MAX,
        fit_token(token),
        is_trimmed(token, Class::Angle),
        store.locks.dom().contains(href_of(path)),
        store.locks[href_of(path)] != token,
    ensures
        asked(store, peer, authority, unlock_request(path, token), limit).0 == store,
        success(asked(store, peer, authority, unlock_request(path, token), limit).1) == Err::<
            ResponseView,
            ErrorView,
        >(refusal(403)),
        !refusal(403).retryable,
{
    lemma_methods();
    law_requests_can_be_written(authority, path, "0"@, Seq::empty(), token);
    law_exchange(store, peer, authority, unlock_request(path, token), limit);
    lemma_token_headers(authority, path, token);
    lemma_brackets(token);
}

/// What is claimed is not removed without its token: the delete is refused,
/// worth asking for again, and changes nothing.
pub proof fn law_claimed_is_not_deleted(
    store: StoreView,
    peer: Seq<char>,
    authority: Seq<char>,
    path: Seq<char>,
    limit: nat,
)
    requires
        reachable(authority, path),
        limit <= usize::MAX,
        store.locks.dom().contains(href_of(path)),
    ensures
        asked(store, peer, authority, RequestView::plain("DELETE"@, path), limit).0 == store,
        success(asked(store, peer, authority, RequestView::plain("DELETE"@, path), limit).1) == Err::<
            ResponseView,
            ErrorView,
        >(refusal(423)),
{
    let request = RequestView::plain("DELETE"@, path);
    lemma_methods();
    law_requests_can_be_written(authority, path, "0"@, Seq::empty(), Seq::empty());
    law_exchange(store, peer, authority, request, limit);
    lemma_own_value(authority, request, "If"@);
    assert(request.headers =~= Seq::empty());
}

/// A resource is available where it is a file that is there and nobody holds,
/// and nowhere else.
pub proof fn law_available_where_free(
    store: StoreView,
    peer: Seq<char>,
    authority: Seq<char>,
    path: Seq<char>,
    limit: nat,
)
    requires
        reachable(authority, path),
        ample(limit),
        encode_utf8(multistatus(listing_of(store, href_of(path), "0"@))).len() <= limit,
    ensures
        ({
            let href = href_of(path);
            let (collection, name) = parts_of(href);
            let answer = asked(store, peer, authority, propfind_request(path, "0"@), limit);
            &&& answer.0 == store
            &&& member_in(answer.1->Ok_0) matches Ok(found) && ((found matches Some(member)
                && !member.locked && !member.collection) == (store.has_file(collection, name)
                && !store.files.dom().contains(href) && !store.locks.dom().contains(href)))
        }),
{
    let href = href_of(path);
    let request = propfind_request(path, "0"@);
    lemma_methods();
    lemma_own_value(authority, request, "Depth"@);
    assert(request.headers[0] == ("Depth"@, "0"@));
    law_requests_can_be_written(authority, path, "0"@, Seq::empty(), Seq::empty());
    law_exchange(store, peer, authority, request, limit);
    let entries = listing_of(store, href, "0"@);
    let text = multistatus(entries);
    lemma_text_of(text);
    law_multistatus_gives_its_members(entries);
    let members = entries.map_values(|e: EntryView| read_back(e));
    let listed = members_listed(text);
    assert(listed =~= members.map_values(|m: MemberView| relative_member(m)));
    assert(entries.len() == 1);
    assert(listed[0] == relative_member(read_back(entries[0])));
    crate::laws::server::lemma_trim_end_twice(path);
}

// ---------------------------------------------------------------------
// Two nodes
// ---------------------------------------------------------------------

/// The token of the lock that a take holds.
pub open spec fn token_held(taking: TakingView) -> Option<Seq<char>> {
    match taking {
        TakingView::Fetching { token } => Some(token),
        TakingView::Deleting { token, bytes } => Some(token),
        TakingView::Releasing { token, error } => Some(token),
        _ => None,
    }
}

/// Whether a take that holds a lock holds the one on `href`.
pub open spec fn holds_its_lock(store: StoreView, href: Seq<char>, taking: TakingView) -> bool {
    token_held(taking) matches Some(token) ==> store.locks.dom().contains(href)
        && store.locks[href] == token && fit_token(token)
}

/// Whether two takes of the file at `href` are apart: each that holds a lock
/// holds the one there is, they do not both hold it, and once one has taken
/// the file it is gone and the other neither holds nor has it.
pub open spec fn apart(
    store: StoreView,
    href: Seq<char>,
    one: TakingView,
    other: TakingView,
) -> bool {
    let (collection, name) = parts_of(href);
    &&& holds_its_lock(store, href, one)
    &&& holds_its_lock(store, href, other)
    &&& !(token_held(one) is Some && token_held(other) is Some)
    &&& one is Taken ==> !store.has_file(collection, name) && token_held(other) is None
        && !(other is Taken)
    &&& other is Taken ==> !store.has_file(collection, name) && token_held(one) is None
        && !(one is Taken)
}

/// What becomes of a take that asks its next request of a session.
pub open spec fn took_a_step(
    store: StoreView,
    peer: Seq<char>,
    authority: Seq<char>,
    path: Seq<char>,
    taking: TakingView,
    limit: nat,
) -> (StoreView, TakingView) {
    match take_request(taking, path) {
        None => (store, taking),
        Some(request) => {
            let answer = asked(store, peer, authority, request, limit);
            (answer.0, take_step(taking, answer.1))
        },
    }
}

/// Two nodes never take one file twice: whichever of two takes of it asks its
/// next request, they stay apart, and no two that are apart have both taken
/// it.
pub proof fn law_two_nodes_stay_apart(
    store: StoreView,
    peer: Seq<char>,
    authority: Seq<char>,
    path: Seq<char>,
    one: TakingView,
    other: TakingView,
    limit: nat,
)
    requires
        reachable(authority, path),
        ample(limit),
        encode_utf8(granted(token_text(store.issued + 1))).len() <= limit,
        store.has_file(parts_of(href_of(path)).0, parts_of(href_of(path)).1) ==> store.folder(
            parts_of(href_of(path)).0,
        )[parts_of(href_of(path)).1].len() <= limit,
        apart(store, href_of(path), one, other),
    ensures
        ({
            let (after, further) = took_a_step(store, peer, authority, path, one, limit);
            &&& apart(after, href_of(path), further, other)
            &&& !(further is Taken && other is Taken)
        }),
{
    let href = href_of(path);
    let (collection, name) = parts_of(href);
    lemma_methods();
    match one {
        TakingView::Locking => {
            if !store.has_file(collection, name) {
                law_claim_of_nothing(store, peer, authority, path, limit);
            } else if store.locks.dom().contains(href) {
                law_claim_is_refused(store, peer, authority, path, limit);
            } else {
                law_claim_is_granted(store, peer, authority, path, limit);
                lemma_token_fit(store.issued + 1);
            }
        },
        TakingView::Fetching { token } => {
            law_requests_can_be_written(authority, path, "0"@, Seq::empty(), token);
            law_exchange(store, peer, authority, RequestView::plain("GET"@, path), limit);
        },
        TakingView::Deleting { token, bytes } => {
            law_requests_can_be_written(authority, path, "0"@, Seq::empty(), token);
            law_exchange(store, peer, authority, delete_held_request(path, token), limit);
            lemma_token_headers(authority, path, token);
            lemma_condition(token);
        },
        TakingView::Releasing { token, error } => {
            law_requests_can_be_written(authority, path, "0"@, Seq::empty(), token);
            law_exchange(store, peer, authority, unlock_request(path, token), limit);
        },
        _ => {},
    }
}

/// Two takes that have not begun are apart.
pub proof fn law_two_nodes_start_apart(store: StoreView, href: Seq<char>)
    ensures
        apart(store, href, TakingView::Locking, TakingView::Locking),
{
}

/// Nobody else comes between: whatever a third party asks without the lock's
/// token, two takes of a file stay apart, unless it stores the file anew.
pub proof fn law_bystanders_keep_apart(
    store: StoreView,
    href: Seq<char>,
    one: TakingView,
    other: TakingView,
    peer: Seq<char>,
    request: RequestView,
)
    requires
        apart(store, href, one, other),
        crate::laws::server::tidy(store),
        store.locks.dom().contains(href) ==> !shows(request.headers, store.locks[href]),
        outcome(store, peer, request).event is Put ==> parts_of(href_of(request.path)) != parts_of(
            href,
        ),
    ensures
        apart(outcome(store, peer, request).store, href, one, other),
{
    let (collection, name) = parts_of(href);
    let parts = parts_of(href_of(request.path));
    assert(parts == (parts.0, parts.1));
    if store.locks.dom().contains(href) {
        crate::laws::server::law_lock_holds(store, peer, request, href);
    }
    if !store.has_file(collection, name) {
        assert(!outcome(store, peer, request).store.has_file(collection, name));
    }
}

} // verus!
