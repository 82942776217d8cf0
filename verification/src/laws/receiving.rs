//! What a receive takes: every file that nobody holds, whole and once, and
//! nothing else.

use vstd::prelude::*;
use vstd::utf8::encode_utf8;
use crate::client::{
    delete_held_request, listing_in, members_listed, propfind_request, put_request, refusal,
    relative_member, unlock_request,
};
use crate::error::ErrorView;
use crate::laws::claims::{
    law_claim_is_granted, law_claim_is_refused, law_claim_of_nothing, lemma_condition,
    lemma_token_fit, lemma_token_headers, locked_by, token_held, took_a_step,
};
use crate::laws::exchange::{
    ample, asked, law_exchange, law_requests_can_be_written, lemma_own_value, reachable,
};
use crate::laws::listing::{law_multistatus_gives_its_members, read_back};
use crate::laws::messages::one_word;
use crate::laws::server::{lemma_methods, lemma_parts_of_member, lemma_trim_end_twice, plain_name};
use crate::markup::{granted, multistatus, EntryView};
use crate::receive::{
    lock_result, next_wanted, origin_of, receive_request, receive_start, receive_step, take_request, take_step,
    wanted, PhaseView, ReceivingView, TakingView,
};
use crate::session::{
    entries_for, entry_for, href_of, listing_of, on_propfind, parts_of, token_text, EventView,
    StoreView,
};
use crate::stream::ArrivedView;
use crate::table::{before, lemma_before_total, lemma_ordered, lists};
use crate::target::after_scheme;
use crate::text::{is_white, lemma_text_of, text_of, trim, trim_end, trim_start, Class};
use crate::wire::{RequestView, ResponseView};
use crate::xml::{members_from, MemberView};

verus! {

// ---------------------------------------------------------------------
// One member, whatever the server answers
// ---------------------------------------------------------------------

/// How many more answers a take can wait for.
pub open spec fn steps_left(taking: TakingView) -> nat {
    match taking {
        TakingView::Locking => 4,
        TakingView::Fetching { token } => 3,
        TakingView::Deleting { token, bytes } => 2,
        TakingView::Releasing { token, error } => 1,
        _ => 0,
    }
}

/// A take ends, whatever it is answered: every answer brings it nearer to its
/// end, and at its end it asks nothing.
pub proof fn law_take_ends(
    taking: TakingView,
    href: Seq<char>,
    answer: Result<ResponseView, ErrorView>,
)
    ensures
        take_request(taking, href) is Some <==> steps_left(taking) > 0,
        steps_left(taking) > 0 ==> steps_left(take_step(taking, answer)) < steps_left(taking),
{
}

/// A lock that is not granted ends the take, and nothing more is asked: it is
/// passed over exactly where the lock was refused with 423, which is another
/// node's hold on it, and fails with what went wrong everywhere else.
pub proof fn law_refused_lock_ends_the_take(
    href: Seq<char>,
    answer: Result<ResponseView, ErrorView>,
)
    requires
        lock_result(answer) is Err,
    ensures
        ({
            let further = take_step(TakingView::Locking, answer);
            let held = answer matches Ok(response) && response.status == 423;
            &&& further == if held {
                TakingView::PassedOver
            } else {
                TakingView::Failed(lock_result(answer)->Err_0)
            }
            &&& take_request(further, href) is None
        }),
{
}

/// A take that holds a lock does not fail without giving it back: whatever it
/// is answered, it goes on to its end with the file, or asks that its own
/// lock be given back, and only then fails.
pub proof fn law_failure_gives_the_lock_back(
    taking: TakingView,
    href: Seq<char>,
    answer: Result<ResponseView, ErrorView>,
)
    requires
        token_held(taking) is Some,
    ensures
        ({
            let further = take_step(taking, answer);
            &&& further is Failed ==> take_request(taking, href) == Some(
                unlock_request(href, token_held(taking)->0),
            )
            &&& !(further is PassedOver)
            &&& token_held(further) is Some ==> token_held(further) == token_held(taking)
        }),
{
}

// ---------------------------------------------------------------------
// One member of a session's store
// ---------------------------------------------------------------------

/// What becomes of a take that asks its requests of a session until it ends.
pub open spec fn take_run(
    store: StoreView,
    peer: Seq<char>,
    authority: Seq<char>,
    path: Seq<char>,
    taking: TakingView,
    limit: nat,
) -> (StoreView, TakingView)
    decreases steps_left(taking),
{
    if steps_left(taking) == 0 {
        (store, taking)
    } else {
        let (after, further) = took_a_step(store, peer, authority, path, taking, limit);
        take_run(after, peer, authority, path, further, limit)
    }
}

/// The store once the file at `href` was taken: it is gone, its lock with
/// it, and one more token was handed out.
pub open spec fn taken_from(store: StoreView, href: Seq<char>) -> StoreView {
    let (collection, name) = parts_of(href);
    StoreView {
        files: store.files.insert(collection, store.files[collection].remove(name)),
        locks: store.locks,
        issued: store.issued + 1,
    }
}

/// The three requests that take a file which nobody holds.
proof fn lemma_take_free(
    store: StoreView,
    peer: Seq<char>,
    authority: Seq<char>,
    path: Seq<char>,
    limit: nat,
)
    requires
        reachable(authority, path),
        ample(limit),
        encode_utf8(granted(token_text(store.issued + 1))).len() <= limit,
        store.folder(parts_of(href_of(path)).0)[parts_of(href_of(path)).1].len() <= limit,
        store.has_file(parts_of(href_of(path)).0, parts_of(href_of(path)).1),
        !store.locks.dom().contains(href_of(path)),
    ensures
        ({
            let href = href_of(path);
            let (collection, name) = parts_of(href);
            let token = token_text(store.issued + 1);
            let bytes = store.folder(collection)[name];
            let held = locked_by(store, href);
            &&& took_a_step(store, peer, authority, path, TakingView::Locking, limit) == (
                held,
                TakingView::Fetching { token },
            )
            &&& took_a_step(held, peer, authority, path, TakingView::Fetching { token }, limit) == (
                held,
                TakingView::Deleting { token, bytes },
            )
            &&& took_a_step(
                held,
                peer,
                authority,
                path,
                TakingView::Deleting { token, bytes },
                limit,
            ) == (taken_from(store, href), TakingView::Taken(bytes))
        }),
{
    let href = href_of(path);
    let token = token_text(store.issued + 1);
    let held = locked_by(store, href);
    lemma_methods();
    law_claim_is_granted(store, peer, authority, path, limit);
    lemma_token_fit(store.issued + 1);
    law_requests_can_be_written(authority, path, "0"@, Seq::empty(), token);
    law_exchange(held, peer, authority, RequestView::plain("GET"@, path), limit);
    law_exchange(held, peer, authority, delete_held_request(path, token), limit);
    lemma_token_headers(authority, path, token);
    lemma_condition(token);
    assert(store.locks.insert(href, token).remove(href) =~= store.locks);
}

/// A file that nobody holds is taken whole: its bytes are what was stored, it
/// is gone from its collection, no lock is left on it, and nothing else has
/// changed.
pub proof fn law_free_is_taken(
    store: StoreView,
    peer: Seq<char>,
    authority: Seq<char>,
    path: Seq<char>,
    limit: nat,
)
    requires
        reachable(authority, path),
        ample(limit),
        encode_utf8(granted(token_text(store.issued + 1))).len() <= limit,
        store.folder(parts_of(href_of(path)).0)[parts_of(href_of(path)).1].len() <= limit,
        store.has_file(parts_of(href_of(path)).0, parts_of(href_of(path)).1),
        !store.locks.dom().contains(href_of(path)),
    ensures
        ({
            let href = href_of(path);
            let (collection, name) = parts_of(href);
            take_run(store, peer, authority, path, TakingView::Locking, limit) == (
                taken_from(store, href),
                TakingView::Taken(store.folder(collection)[name]),
            )
        }),
{
    let href = href_of(path);
    let (collection, name) = parts_of(href);
    let token = token_text(store.issued + 1);
    let bytes = store.folder(collection)[name];
    let held = locked_by(store, href);
    lemma_take_free(store, peer, authority, path, limit);
    let taken = TakingView::Taken(bytes);
    assert(take_run(taken_from(store, href), peer, authority, path, taken, limit) == (
        taken_from(store, href),
        taken,
    ));
    assert(take_run(held, peer, authority, path, TakingView::Deleting { token, bytes }, limit)
        == take_run(taken_from(store, href), peer, authority, path, taken, limit));
    assert(take_run(held, peer, authority, path, TakingView::Fetching { token }, limit) == take_run(
        held,
        peer,
        authority,
        path,
        TakingView::Deleting { token, bytes },
        limit,
    ));
}

/// A file that another node holds is passed over, and nothing has changed.
pub proof fn law_held_is_passed_over(
    store: StoreView,
    peer: Seq<char>,
    authority: Seq<char>,
    path: Seq<char>,
    limit: nat,
)
    requires
        reachable(authority, path),
        ample(limit),
        store.has_file(parts_of(href_of(path)).0, parts_of(href_of(path)).1),
        store.locks.dom().contains(href_of(path)),
    ensures
        take_run(store, peer, authority, path, TakingView::Locking, limit) == (
            store,
            TakingView::PassedOver,
        ),
{
    law_claim_is_refused(store, peer, authority, path, limit);
    assert(take_run(store, peer, authority, path, TakingView::PassedOver, limit) == (
        store,
        TakingView::PassedOver,
    ));
}

/// What is not there fails, and nothing has changed.
pub proof fn law_missing_is_not_taken(
    store: StoreView,
    peer: Seq<char>,
    authority: Seq<char>,
    path: Seq<char>,
    limit: nat,
)
    requires
        reachable(authority, path),
        ample(limit),
        !store.has_file(parts_of(href_of(path)).0, parts_of(href_of(path)).1),
    ensures
        take_run(store, peer, authority, path, TakingView::Locking, limit) == (
            store,
            TakingView::Failed(refusal(404)),
        ),
{
    law_claim_of_nothing(store, peer, authority, path, limit);
    let failed = TakingView::Failed(refusal(404));
    assert(take_run(store, peer, authority, path, failed, limit) == (store, failed));
}

// ---------------------------------------------------------------------
// A whole collection, whatever the server answers
// ---------------------------------------------------------------------

/// Whether a receive that takes a member takes one that is listed.
pub open spec fn sound(receiving: ReceivingView) -> bool {
    receiving.phase is Taking ==> 0 <= receiving.next < receiving.members.len()
}

/// How much of a receive is before it: the listing, then the members, then
/// the answers about the one it has come to.
pub open spec fn before_listing(receiving: ReceivingView) -> nat {
    if receiving.phase is Listing {
        1
    } else {
        0
    }
}

/// How many members a receive has not done with.
pub open spec fn members_left(receiving: ReceivingView) -> int {
    if receiving.phase is Taking {
        receiving.members.len() - receiving.next
    } else {
        0
    }
}

/// How many more answers about the member it has come to a receive can wait
/// for.
pub open spec fn answers_left(receiving: ReceivingView) -> nat {
    match receiving.phase {
        PhaseView::Taking(taking) => steps_left(taking),
        _ => 0,
    }
}

/// The next member to be taken does not lie behind.
proof fn lemma_next_wanted(members: Seq<MemberView>, path: Seq<char>, from: int)
    ensures
        from <= next_wanted(members, path, from),
    decreases members.len() - from,
{
    if from < members.len() && !wanted(members[from], path) {
        lemma_next_wanted(members, path, from + 1);
    }
}

/// A receive ends, whatever it is answered: the listing comes first and once,
/// and every answer after it brings the receive on to a later member, or
/// nearer to the end of this one.
pub proof fn law_receive_ends(receiving: ReceivingView, answer: Result<ResponseView, ErrorView>)
    requires
        sound(receiving),
    ensures
        sound(receive_step(receiving, answer)),
        receive_request(receiving) is Some ==> {
            let further = receive_step(receiving, answer);
            ||| before_listing(further) < before_listing(receiving)
            ||| before_listing(further) == before_listing(receiving) && 0 <= members_left(further)
                < members_left(receiving)
            ||| before_listing(further) == before_listing(receiving) && members_left(further)
                == members_left(receiving) && answers_left(further) < answers_left(receiving)
        },
{
    match receiving.phase {
        PhaseView::Listing => {
            if let Ok(response) = answer {
                if let Ok(members) = listing_in(response) {
                    lemma_next_wanted(members, receiving.path, 0);
                }
            }
        },
        PhaseView::Taking(taking) => {
            law_take_ends(taking, receiving.members[receiving.next].href, answer);
            lemma_next_wanted(receiving.members, receiving.path, receiving.next + 1);
        },
        _ => {},
    }
}

// ---------------------------------------------------------------------
// A whole collection of a session's store
// ---------------------------------------------------------------------

/// What becomes of a receive that asks its requests of a session until it
/// ends.
pub open spec fn receive_run(
    store: StoreView,
    peer: Seq<char>,
    receiving: ReceivingView,
    limit: nat,
) -> (StoreView, ReceivingView)
    decreases
            before_listing(receiving),
            members_left(receiving),
            answers_left(receiving),
{
    match receive_request(receiving) {
        None => (store, receiving),
        Some(request) => if !sound(receiving) {
            (store, receiving)
        } else {
            let (after, answer) = asked(store, peer, receiving.authority, request, limit);
            proof {
                law_receive_ends(receiving, answer);
            }
            receive_run(after, peer, receive_step(receiving, answer), limit)
        },
    }
}

/// The href of a member of a collection.
pub open spec fn member_href(collection: Seq<char>, name: Seq<char>) -> Seq<char> {
    collection + "/"@ + name
}

/// Whether nobody holds the member `name` of `collection`.
pub open spec fn is_free(store: StoreView, collection: Seq<char>, name: Seq<char>) -> bool {
    !store.locks.dom().contains(member_href(collection, name))
}

/// The members of `collection` among `names` that nobody holds.
pub open spec fn free_names(store: StoreView, collection: Seq<char>, names: Seq<Seq<char>>) -> Seq<
    Seq<char>,
> {
    names.filter(|name: Seq<char>| is_free(store, collection, name))
}

/// The Streams that these members of a collection arrive as.
pub open spec fn streams_of(
    store: StoreView,
    authority: Seq<char>,
    collection: Seq<char>,
    names: Seq<Seq<char>>,
) -> Seq<ArrivedView> {
    names.map_values(
        |name: Seq<char>|
            ArrivedView {
                origin_uri: origin_of(authority, member_href(collection, name)),
                bytes: store.folder(collection)[name],
            },
    )
}

/// The store once these members of a collection were taken.
pub open spec fn without(store: StoreView, collection: Seq<char>, names: Seq<Seq<char>>) -> StoreView {
    StoreView {
        files: store.files.insert(
            collection,
            Map::new(
                |name: Seq<char>|
                    store.folder(collection).dom().contains(name) && !names.contains(name),
                |name: Seq<char>| store.folder(collection)[name],
            ),
        ),
        locks: store.locks,
        issued: store.issued + names.len(),
    }
}

/// Whether the members of a collection have names that can be listed: white
/// space at the end of a href is not read.
pub open spec fn listable(names: Seq<Seq<char>>) -> bool {
    forall|i: int| 0 <= i < names.len() ==> ((#[trigger] names[i]).len() > 0 ==> !is_white(
        names[i].last(),
    ))
}

/// Whether the members of a collection have names that can be taken: one
/// word each, with no slash in it.
pub open spec fn fit_names(names: Seq<Seq<char>>) -> bool {
    forall|i: int| 0 <= i < names.len() ==> plain_name(#[trigger] names[i]) && one_word(names[i])
}

/// Whether a collection has a path that can be listed: the root, or one that
/// starts with a slash and does not end in one.
pub open spec fn fit_collection(collection: Seq<char>) -> bool {
    collection.len() > 0 ==> collection[0] == '/' && collection.last() != '/'
}

/// Whether every body that the receive of a collection meets is within a
/// limit: what is asked, the listing, each file, and each lock that is
/// granted.
pub open spec fn fits(
    store: StoreView,
    collection: Seq<char>,
    names: Seq<Seq<char>>,
    limit: nat,
) -> bool {
    &&& ample(limit)
    &&& encode_utf8(multistatus(listing_of(store, collection, "1"@))).len() <= limit
    &&& forall|i: int|
        0 <= i < names.len() ==> store.folder(collection)[#[trigger] names[i]].len() <= limit
    &&& forall|n: nat|
        store.issued < n <= store.issued + names.len() ==> encode_utf8(
            granted(#[trigger] token_text(n)),
        ).len() <= limit
}

/// What a client reads about the members of a collection. Who holds a member
/// is looked up by its href without trailing slashes.
pub open spec fn members_of(store: StoreView, collection: Seq<char>, names: Seq<Seq<char>>) -> Seq<
    MemberView,
> {
    seq![
        MemberView {
            href: collection + "/"@,
            collection: true,
            locked: store.locks.dom().contains(collection),
        },
    ] + names.map_values(
        |name: Seq<char>|
            MemberView {
                href: member_href(collection, name),
                collection: false,
                locked: store.locks.dom().contains(href_of(member_href(collection, name))),
            },
    )
}

/// A href that starts with a slash and does not end in white space is read as
/// it was written.
proof fn lemma_href_read(href: Seq<char>)
    requires
        href.len() > 0,
        href[0] == '/',
        !is_white(href.last()),
    ensures
        trim(href, Class::White) == href,
        after_scheme(href) is None,
{
    assert(trim_start(href, Class::White) == href);
    assert(trim_end(href, Class::White) == href);
    reveal_strlit("http://");
    reveal_strlit("https://");
    if "http://"@.is_prefix_of(href) {
        assert(href[0] == "http://"@[0]);
    }
    if "https://"@.is_prefix_of(href) {
        assert(href[0] == "https://"@[0]);
    }
}

/// A collection's path has no slash to trim off.
proof fn lemma_collection_trimmed(collection: Seq<char>)
    requires
        fit_collection(collection),
    ensures
        trim_end(collection, Class::Slash) == collection,
        trim_end(collection + "/"@, Class::Slash) == collection,
{
    reveal_strlit("/");
    assert((collection + "/"@).last() == '/');
    assert((collection + "/"@).drop_last() =~= collection);
}

/// What the lines of a listing are read as.
proof fn lemma_lines_read(
    store: StoreView,
    collection: Seq<char>,
    depth: Seq<char>,
    names: Seq<Seq<char>>,
)
    requires
        store.files.dom().contains(collection),
        depth != "0"@,
        lists(names, store.files[collection].dom()),
        listable(names),
        fit_collection(collection),
    ensures
        ({
            let members = members_of(store, collection, names);
            &&& members_from(multistatus(listing_of(store, collection, depth)), 0) == members
            &&& forall|i: int|
                0 <= i < members.len() ==> after_scheme((#[trigger] members[i]).href) is None
        }),
{
    lemma_ordered(names, store.files[collection].dom());
    let entries = listing_of(store, collection, depth);
    let itself = entry_for(store, collection + "/"@, true);
    assert(entries =~= seq![itself] + entries_for(store, collection, names));
    law_multistatus_gives_its_members(entries);
    let read = entries.map_values(|e: EntryView| read_back(e));
    let want = members_of(store, collection, names);
    assert(read.len() == want.len());
    lemma_collection_trimmed(collection);
    reveal_strlit("/");
    assert forall|i: int| 0 <= i < read.len() implies read[i] == want[i] && after_scheme(
        (#[trigger] want[i]).href,
    ) is None by {
        assert(read[i] == read_back(entries[i]));
        if i == 0 {
            assert((collection + "/"@)[0] == '/');
            assert((collection + "/"@).last() == '/');
            lemma_href_read(collection + "/"@);
        } else {
            let name = names[i - 1];
            let href = member_href(collection, name);
            assert(names[i - 1].len() > 0 ==> !is_white(names[i - 1].last()));
            assert(entries[i] == entry_for(store, href, false));
            assert(href[0] == '/');
            if name.len() > 0 {
                assert(href.last() == name.last());
            } else {
                assert(href.last() == '/');
            }
            lemma_href_read(href);
        }
    }
    assert(read =~= want);
}

/// A listing gives every member of its collection, and nothing more: the
/// collection itself first, then its files in the order of their names, and
/// who is held. A file whose name ends in no slash is reported held exactly
/// where its own href is locked.
pub proof fn law_list_gives_every_member(
    store: StoreView,
    collection: Seq<char>,
    depth: Seq<char>,
    names: Seq<Seq<char>>,
)
    requires
        store.files.dom().contains(collection),
        depth != "0"@,
        lists(names, store.files[collection].dom()),
        listable(names),
        fit_collection(collection),
    ensures
        ({
            let done = on_propfind(store, collection, depth);
            let members = members_of(store, collection, names);
            &&& done.store == store
            &&& done.event == EventView::Listed(collection)
            &&& done.response.status == 207
            &&& members_from(text_of(done.response.body), 0) == members
            &&& forall|i: int|
                0 <= i < names.len() && (#[trigger] names[i]).len() > 0 && names[i].last() != '/'
                    ==> members[i + 1].locked == !is_free(store, collection, names[i])
        }),
{
    let text = multistatus(listing_of(store, collection, depth));
    let members = members_of(store, collection, names);
    lemma_text_of(text);
    lemma_lines_read(store, collection, depth, names);
    assert forall|i: int|
        0 <= i < names.len() && (#[trigger] names[i]).len() > 0 && names[i].last()
            != '/' implies members[i + 1].locked == !is_free(store, collection, names[i]) by {
        let href = member_href(collection, names[i]);
        assert(href.last() == names[i].last());
        assert(href_of(href) == href);
    }
}

/// What a client hears of a listing is every member of the collection.
pub proof fn law_list_is_heard(
    store: StoreView,
    peer: Seq<char>,
    authority: Seq<char>,
    path: Seq<char>,
    names: Seq<Seq<char>>,
    limit: nat,
)
    requires
        reachable(authority, path),
        ample(limit),
        encode_utf8(multistatus(listing_of(store, href_of(path), "1"@))).len() <= limit,
        store.files.dom().contains(href_of(path)),
        lists(names, store.files[href_of(path)].dom()),
        listable(names),
        fit_collection(href_of(path)),
    ensures
        ({
            let answer = asked(store, peer, authority, propfind_request(path, "1"@), limit);
            &&& answer.0 == store
            &&& answer.1 matches Ok(response) && listing_in(response) == Ok::<
                Seq<MemberView>,
                ErrorView,
            >(members_of(store, href_of(path), names))
        }),
{
    let collection = href_of(path);
    let request = propfind_request(path, "1"@);
    lemma_methods();
    lemma_own_value(authority, request, "Depth"@);
    assert(request.headers[0] == ("Depth"@, "1"@));
    law_requests_can_be_written(authority, path, "1"@, Seq::empty(), Seq::empty());
    law_exchange(store, peer, authority, request, limit);
    reveal_strlit("0");
    reveal_strlit("1");
    assert("0"@[0] == '0' && "1"@[0] == '1');
    let text = multistatus(listing_of(store, collection, "1"@));
    let want = members_of(store, collection, names);
    lemma_text_of(text);
    lemma_lines_read(store, collection, "1"@, names);
    assert(members_listed(text) =~= want) by {
        assert forall|i: int| 0 <= i < want.len() implies relative_member(want[i]) == want[i] by {
            assert(after_scheme(want[i].href) is None);
        }
    }
}

/// A receive that has come to the member `names[at]`: those before it are
/// done with.
pub open spec fn come_to(
    store: StoreView,
    authority: Seq<char>,
    path: Seq<char>,
    names: Seq<Seq<char>>,
    at: int,
) -> ReceivingView {
    let collection = href_of(path);
    ReceivingView {
        authority,
        path,
        members: members_of(store, collection, names),
        next: at + 1,
        arrived: streams_of(
            store,
            authority,
            collection,
            free_names(store, collection, names.take(at)),
        ),
        phase: if at < names.len() {
            PhaseView::Taking(TakingView::Locking)
        } else {
            PhaseView::Done
        },
    }
}

/// The names up to and with one more are those that were free, and that one
/// where it is.
proof fn lemma_free_names(
    store: StoreView,
    collection: Seq<char>,
    names: Seq<Seq<char>>,
    at: int,
)
    requires
        0 <= at < names.len(),
    ensures
        free_names(store, collection, names.take(at + 1)) == if is_free(
            store,
            collection,
            names[at],
        ) {
            free_names(store, collection, names.take(at)).push(names[at])
        } else {
            free_names(store, collection, names.take(at))
        },
{
    reveal(Seq::filter);
    assert(names.take(at + 1).drop_last() =~= names.take(at));
    assert(names.take(at + 1).last() == names[at]);
}

/// What is free among some names is one of them.
proof fn lemma_free_contains(
    store: StoreView,
    collection: Seq<char>,
    names: Seq<Seq<char>>,
    name: Seq<char>,
)
    ensures
        free_names(store, collection, names).contains(name) <==> names.contains(name) && is_free(
            store,
            collection,
            name,
        ),
    decreases names.len(),
{
    reveal(Seq::filter);
    if names.len() > 0 {
        let at = names.len() - 1;
        let rest = names.take(at);
        let free = free_names(store, collection, rest);
        lemma_free_contains(store, collection, rest, name);
        lemma_free_names(store, collection, names, at);
        assert(names.take(at + 1) =~= names);
        if names.contains(name) {
            let i = choose|i: int| 0 <= i < names.len() && names[i] == name;
            assert(i < at ==> rest[i] == name);
        }
        if rest.contains(name) {
            let i = choose|i: int| 0 <= i < rest.len() && rest[i] == name;
            assert(names[i] == name);
        }
        assert(names[at] == name ==> names.contains(name));
        let more = free.push(names[at]);
        if free.contains(name) {
            let i = choose|i: int| 0 <= i < free.len() && free[i] == name;
            assert(more[i] == name);
        }
        if more.contains(name) {
            let i = choose|i: int| 0 <= i < more.len() && more[i] == name;
            assert(i < free.len() ==> free[i] == name);
        }
        assert(more[free.len() as int] == names[at]);
    }
}

/// No more names are free than there are.
proof fn lemma_names_taken(store: StoreView, collection: Seq<char>, names: Seq<Seq<char>>, at: int)
    requires
        0 <= at <= names.len(),
    ensures
        free_names(store, collection, names.take(at)).len() <= at,
    decreases at,
{
    reveal(Seq::filter);
    if at > 0 {
        lemma_names_taken(store, collection, names, at - 1);
        lemma_free_names(store, collection, names, at - 1);
    }
}

/// What is left of a word after trimming has no white space in it.
proof fn lemma_trimmed_word(path: Seq<char>)
    requires
        forall|i: int| 0 <= i < path.len() ==> !is_white(#[trigger] path[i]),
    ensures
        forall|i: int|
            0 <= i < href_of(path).len() ==> !is_white(#[trigger] href_of(path)[i]),
    decreases path.len(),
{
    if path.len() > 0 && path.last() == '/' {
        let rest = path.drop_last();
        assert forall|i: int| 0 <= i < rest.len() implies !is_white(#[trigger] rest[i]) by {
            assert(rest[i] == path[i]);
        }
        lemma_trimmed_word(rest);
        assert(href_of(path) == href_of(rest));
    } else {
        assert(href_of(path) == path);
    }
}

/// The href of a member is one word where its collection's path and its name
/// are.
proof fn lemma_member_word(path: Seq<char>, name: Seq<char>)
    requires
        one_word(path),
        one_word(name),
    ensures
        one_word(member_href(href_of(path), name)),
{
    let collection = href_of(path);
    let href = member_href(collection, name);
    reveal_strlit("/");
    lemma_trimmed_word(path);
    assert forall|i: int| 0 <= i < href.len() implies !is_white(#[trigger] href[i]) by {
        if i < collection.len() {
            assert(href[i] == collection[i]);
        } else if i > collection.len() {
            assert(href[i] == name[i - collection.len() - 1]);
        }
    }
}

/// A receive that has come to a member of its collection goes on to the next
/// one, with the member where nobody holds it and without where somebody
/// does.
proof fn lemma_receive_one(
    store: StoreView,
    peer: Seq<char>,
    authority: Seq<char>,
    path: Seq<char>,
    names: Seq<Seq<char>>,
    at: int,
    limit: nat,
)
    requires
        reachable(authority, path),
        fits(store, href_of(path), names, limit),
        store.files.dom().contains(href_of(path)),
        lists(names, store.files[href_of(path)].dom()),
        fit_names(names),
        fit_collection(href_of(path)),
        0 <= at < names.len(),
    ensures
        ({
            let collection = href_of(path);
            let done = free_names(store, collection, names.take(at));
            let further = free_names(store, collection, names.take(at + 1));
            receive_run(
                without(store, collection, done),
                peer,
                come_to(store, authority, path, names, at),
                limit,
            ) == receive_run(
                without(store, collection, further),
                peer,
                come_to(store, authority, path, names, at + 1),
                limit,
            )
        }),
{
    let collection = href_of(path);
    let name = names[at];
    let href = member_href(collection, name);
    let done = free_names(store, collection, names.take(at));
    let further = free_names(store, collection, names.take(at + 1));
    let now = without(store, collection, done);
    let receiving = come_to(store, authority, path, names, at);
    let next = come_to(store, authority, path, names, at + 1);
    assert(plain_name(names[at]));
    lemma_parts_of_member(collection, name);
    lemma_free_names(store, collection, names, at);
    lemma_trim_end_twice(path);
    assert(receiving.members[at + 1].href == href);
    assert(names.contains(name));
    lemma_free_contains(store, collection, names.take(at), name);
    assert(!names.take(at).contains(name)) by {
        if names.take(at).contains(name) {
            let i = choose|i: int| 0 <= i < at && names.take(at)[i] == name;
            assert(before(names[i], names[at]));
            lemma_before_total(names[i], names[at]);
        }
    }
    assert(now.has_file(collection, name));
    assert(one_word(names[at]));
    lemma_member_word(path, name);
    // The one that follows is to be taken too.
    assert(next_wanted(receiving.members, path, at + 2) == at + 2) by {
        if at + 1 < names.len() {
            assert(plain_name(names[at + 1]));
            lemma_parts_of_member(collection, names[at + 1]);
            let member = receiving.members[at + 2];
            assert(member.href == member_href(collection, names[at + 1]));
            assert(member.href.len() > collection.len());
            assert(wanted(member, path));
        }
    }
    if is_free(store, collection, name) {
        let token = token_text(now.issued + 1);
        let bytes = store.folder(collection)[name];
        let held = locked_by(now, href);
        let gone = taken_from(now, href);
        lemma_names_taken(store, collection, names, at);
        assert(encode_utf8(granted(token_text(now.issued + 1))).len() <= limit);
        assert(store.folder(collection)[names[at]].len() <= limit);
        lemma_take_free(now, peer, authority, href, limit);
        let locked = ReceivingView {
            phase: PhaseView::Taking(TakingView::Fetching { token }),
            ..receiving
        };
        let got = ReceivingView {
            phase: PhaseView::Taking(TakingView::Deleting { token, bytes }),
            ..receiving
        };
        assert(receive_run(now, peer, receiving, limit) == receive_run(held, peer, locked, limit));
        assert(receive_run(held, peer, locked, limit) == receive_run(held, peer, got, limit));
        assert(receive_run(held, peer, got, limit) == receive_run(gone, peer, next, limit)) by {
            assert(streams_of(store, authority, collection, further) =~= streams_of(
                store,
                authority,
                collection,
                done,
            ).push(ArrivedView { origin_uri: origin_of(authority, href), bytes }));
        }
        let left = without(store, collection, further);
        assert forall|n: Seq<char>| further.contains(n) <==> (done.contains(n) || n == name) by {
            if done.contains(n) {
                let i = choose|i: int| 0 <= i < done.len() && done[i] == n;
                assert(further[i] == n);
            }
            if further.contains(n) {
                let i = choose|i: int| 0 <= i < further.len() && further[i] == n;
                assert(i < done.len() ==> done[i] == n);
            }
            assert(further[done.len() as int] == name);
        }
        assert(gone.files[collection] =~= left.files[collection]);
        assert(gone.files =~= left.files);
    } else {
        law_claim_is_refused(now, peer, authority, href, limit);
        assert(receive_run(now, peer, receiving, limit) == receive_run(now, peer, next, limit));
    }
}

/// A receive goes through all that is left of its collection.
proof fn lemma_receive_rest(
    store: StoreView,
    peer: Seq<char>,
    authority: Seq<char>,
    path: Seq<char>,
    names: Seq<Seq<char>>,
    at: int,
    limit: nat,
)
    requires
        reachable(authority, path),
        fits(store, href_of(path), names, limit),
        store.files.dom().contains(href_of(path)),
        lists(names, store.files[href_of(path)].dom()),
        fit_names(names),
        fit_collection(href_of(path)),
        0 <= at <= names.len(),
    ensures
        ({
            let collection = href_of(path);
            let done = free_names(store, collection, names.take(at));
            receive_run(
                without(store, collection, done),
                peer,
                come_to(store, authority, path, names, at),
                limit,
            ) == (
                without(store, collection, free_names(store, collection, names)),
                come_to(store, authority, path, names, names.len() as int),
            )
        }),
    decreases names.len() - at,
{
    assert(names.take(names.len() as int) =~= names);
    if at < names.len() {
        lemma_receive_one(store, peer, authority, path, names, at, limit);
        lemma_receive_rest(store, peer, authority, path, names, at + 1, limit);
    }
}

/// A receive takes what is free, and only that: every file of the collection
/// that nobody holds arrives, whole, in the order of the names, under its own
/// URI; exactly those files are gone; every file that somebody holds is left
/// as it was; and no lock is left behind or lost.
pub proof fn law_receive_takes_what_is_free(
    store: StoreView,
    peer: Seq<char>,
    authority: Seq<char>,
    path: Seq<char>,
    names: Seq<Seq<char>>,
    limit: nat,
)
    requires
        reachable(authority, path),
        fits(store, href_of(path), names, limit),
        store.files.dom().contains(href_of(path)),
        lists(names, store.files[href_of(path)].dom()),
        fit_names(names),
        fit_collection(href_of(path)),
    ensures
        ({
            let collection = href_of(path);
            let free = free_names(store, collection, names);
            let (after, received) = receive_run(
                store,
                peer,
                receive_start(authority, path),
                limit,
            );
            &&& received.phase is Done
            &&& received.arrived == streams_of(store, authority, collection, free)
            &&& after == without(store, collection, free)
        }),
{
    let collection = href_of(path);
    let start = receive_start(authority, path);
    let members = members_of(store, collection, names);
    let none = names.take(0);
    assert forall|i: int| 0 <= i < names.len() implies ((#[trigger] names[i]).len() > 0
        ==> !is_white(names[i].last())) by {
        assert(one_word(names[i]));
        assert(!is_white(names[i][names[i].len() - 1]));
    }
    law_list_is_heard(store, peer, authority, path, names, limit);
    lemma_collection_trimmed(collection);
    assert(free_names(store, collection, none) =~= Seq::empty()) by {
        reveal(Seq::filter);
    }
    let nothing = free_names(store, collection, none);
    assert(without(store, collection, nothing).files[collection] =~= store.files[collection]);
    assert(without(store, collection, nothing).files =~= store.files);
    assert(without(store, collection, nothing) == store);
    let first = come_to(store, authority, path, names, 0);
    assert(first.arrived =~= Seq::<ArrivedView>::empty());
    // The collection itself is not to be taken; the member after it is.
    assert(next_wanted(members, path, 0) == 1) by {
        assert(!wanted(members[0], path));
        assert(next_wanted(members, path, 0) == next_wanted(members, path, 1));
        if names.len() > 0 {
            assert(plain_name(names[0]));
            lemma_parts_of_member(collection, names[0]);
            assert(members[1].href == member_href(collection, names[0]));
            assert(members[1].href.len() > collection.len());
            assert(wanted(members[1], path));
        }
    }
    assert(receive_run(store, peer, start, limit) == receive_run(store, peer, first, limit));
    lemma_receive_rest(store, peer, authority, path, names, 0, limit);
    assert(names.take(names.len() as int) =~= names);
}

/// What is sent is what is received: the bytes that a PUT stored in a
/// collection arrive, whole, under the URI of their member, at whoever
/// receives the collection next, where nobody holds it.
pub proof fn law_sent_is_received(
    store: StoreView,
    sender: Seq<char>,
    path: Seq<char>,
    name: Seq<char>,
    bytes: Seq<u8>,
    receiver: Seq<char>,
    authority: Seq<char>,
    names: Seq<Seq<char>>,
    limit: nat,
)
    requires
        reachable(authority, path),
        fits(store.put(href_of(path), name, bytes), href_of(path), names, limit),
        store.files.dom().contains(href_of(path)),
        fit_collection(href_of(path)),
        plain_name(name),
        is_free(store, href_of(path), name),
        lists(names, store.files[href_of(path)].dom().insert(name)),
        fit_names(names),
    ensures
        ({
            let href = member_href(href_of(path), name);
            let sent = asked(store, sender, authority, put_request(href, bytes), limit);
            let (after, received) = receive_run(
                sent.0,
                receiver,
                receive_start(authority, path),
                limit,
            );
            &&& crate::receive::success(sent.1) is Ok
            &&& received.phase is Done
            &&& received.arrived.contains(
                ArrivedView { origin_uri: origin_of(authority, href), bytes },
            )
            &&& !after.has_file(href_of(path), name)
        }),
{
    let collection = href_of(path);
    let href = member_href(collection, name);
    let sent = asked(store, sender, authority, put_request(href, bytes), limit).0;
    lemma_methods();
    lemma_parts_of_member(collection, name);
    lemma_collection_trimmed(collection);
    assert(names.contains(name));
    let k = choose|k: int| 0 <= k < names.len() && names[k] == name;
    assert(plain_name(names[k]) && one_word(names[k]));
    lemma_member_word(path, name);
    assert(store.put(collection, name, bytes).folder(collection)[names[k]] == bytes);
    law_requests_can_be_written(authority, href, "0"@, bytes, Seq::empty());
    law_exchange(store, sender, authority, put_request(href, bytes), limit);
    assert(sent == store.put(collection, name, bytes));
    assert(sent.files.dom().contains(collection));
    assert(sent.files[collection].dom() =~= store.files[collection].dom().insert(name));
    law_receive_takes_what_is_free(sent, receiver, authority, path, names, limit);
    let free = free_names(sent, collection, names);
    lemma_free_contains(sent, collection, names, name);
    let i = choose|i: int| 0 <= i < free.len() && free[i] == name;
    let streams = streams_of(sent, authority, collection, free);
    assert(streams[i] == (ArrivedView { origin_uri: origin_of(authority, href), bytes }));
}

/// What one receive took the next does not: of two receives of a collection,
/// one after the other, the second gets nothing where nothing was stored or
/// given back between them.
pub proof fn law_nothing_is_received_twice(
    store: StoreView,
    first: Seq<char>,
    second: Seq<char>,
    authority: Seq<char>,
    path: Seq<char>,
    names: Seq<Seq<char>>,
    left: Seq<Seq<char>>,
    limit: nat,
)
    requires
        reachable(authority, path),
        fits(store, href_of(path), names, limit),
        fits(
            receive_run(store, first, receive_start(authority, path), limit).0,
            href_of(path),
            left,
            limit,
        ),
        store.files.dom().contains(href_of(path)),
        fit_collection(href_of(path)),
        lists(names, store.files[href_of(path)].dom()),
        fit_names(names),
        lists(
            left,
            receive_run(store, first, receive_start(authority, path), limit).0.files[href_of(
                path,
            )].dom(),
        ),
    ensures
        ({
            let between = receive_run(store, first, receive_start(authority, path), limit).0;
            let (after, received) = receive_run(
                between,
                second,
                receive_start(authority, path),
                limit,
            );
            &&& received.phase is Done
            &&& received.arrived.len() == 0
            &&& after == between
        }),
{
    let collection = href_of(path);
    let free = free_names(store, collection, names);
    law_receive_takes_what_is_free(store, first, authority, path, names, limit);
    let between = without(store, collection, free);
    assert(receive_run(store, first, receive_start(authority, path), limit).0 == between);
    assert forall|i: int| 0 <= i < left.len() implies plain_name(#[trigger] left[i]) && one_word(
        left[i],
    ) && !is_free(store, collection, left[i]) by {
        assert(left.contains(left[i]));
        assert(between.files[collection].dom().contains(left[i]));
        assert(names.contains(left[i]));
        lemma_free_contains(store, collection, names, left[i]);
    }
    law_receive_takes_what_is_free(between, second, authority, path, left, limit);
    let none = free_names(between, collection, left);
    if none.len() > 0 {
        assert(none.contains(none[0]));
        lemma_free_contains(between, collection, left, none[0]);
        let i = choose|i: int| 0 <= i < left.len() && left[i] == none[0];
        assert(!is_free(store, collection, left[i]));
    }
    let after = without(between, collection, none);
    assert(after.files[collection] =~= between.files[collection]);
    assert(after.files =~= between.files);
}

} // verus!
