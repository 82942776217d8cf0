//! What a take and a receive come to, answer by answer, whatever the server.

use vstd::prelude::*;
use crate::client::{listing_in, lock_in};
use crate::error::ErrorView;
use crate::receive::{
    next_wanted, receive_request, receive_start, receive_step, take_request, take_step, wanted,
    PhaseView, ReceivingView, TakingView,
};
use crate::text::{decimal, trim_end, Class};
use crate::wire::{reason_text, ResponseView};
use crate::xml::MemberView;

verus! {

/// Whether an answer came and is a 2xx.
pub open spec fn is_success(answer: Result<ResponseView, ErrorView>) -> bool {
    answer matches Ok(response) && 200 <= response.status < 300
}

/// Whether an error is the one that an answer which is no success stands for:
/// what went wrong on the way, or a failure that names the status and is worth
/// repeating for 5xx, 408, 423 and 429.
pub open spec fn is_failure_of(
    error: ErrorView,
    answer: Result<ResponseView, ErrorView>,
) -> bool {
    match answer {
        Err(e) => error == e,
        Ok(response) => {
            &&& !(200 <= response.status < 300)
            &&& error.retryable <==> 500 <= response.status < 600 || response.status == 408
                || response.status == 423 || response.status == 429
            &&& error.message == "the WebDAV server answered "@ + decimal(response.status as nat)
                + " "@ + reason_text(response.status)
        },
    }
}

// ---------------------------------------------------------------------
// One member
// ---------------------------------------------------------------------

/// What becomes of a lock: with its token the member is fetched; where
/// another node holds it, which is 423, it is passed over; any other failure
/// is the take's.
pub proof fn law_lock_answered(answer: Result<ResponseView, ErrorView>)
    ensures
        ({
            let further = take_step(TakingView::Locking, answer);
            if !is_success(answer) {
                if answer matches Ok(response) && response.status == 423 {
                    further == TakingView::PassedOver
                } else {
                    further matches TakingView::Failed(error) && is_failure_of(error, answer)
                }
            } else {
                match lock_in(answer->Ok_0) {
                    Ok(token) => further == TakingView::Fetching { token },
                    Err(error) => further == TakingView::Failed(error),
                }
            }
        }),
{
}

/// What becomes of a fetch: its body, whole, goes on to be deleted under the
/// same token; any failure goes on to give the same lock back.
pub proof fn law_fetch_answered(token: Seq<char>, answer: Result<ResponseView, ErrorView>)
    ensures
        ({
            let further = take_step(TakingView::Fetching { token }, answer);
            if is_success(answer) {
                further == TakingView::Deleting { token, bytes: answer->Ok_0.body }
            } else {
                further matches TakingView::Releasing { token: held, error } && held == token
                    && is_failure_of(error, answer)
            }
        }),
{
}

/// What becomes of a delete: the member is taken with the bytes that were
/// fetched; any failure goes on to give the same lock back.
pub proof fn law_delete_answered(
    token: Seq<char>,
    bytes: Seq<u8>,
    answer: Result<ResponseView, ErrorView>,
)
    ensures
        ({
            let further = take_step(TakingView::Deleting { token, bytes }, answer);
            if is_success(answer) {
                further == TakingView::Taken(bytes)
            } else {
                further matches TakingView::Releasing { token: held, error } && held == token
                    && is_failure_of(error, answer)
            }
        }),
{
}

/// What becomes of a lock that is given back: the take fails, with what went
/// wrong before, whatever the answer.
pub proof fn law_release_answered(
    token: Seq<char>,
    error: ErrorView,
    answer: Result<ResponseView, ErrorView>,
)
    ensures
        take_step(TakingView::Releasing { token, error }, answer) == TakingView::Failed(error),
{
}

/// What a take asks: first the lock, then the bytes, then that the member be
/// gone, and after a failure that the lock be given back; all of the one
/// member, and nothing once it is known what became of it.
pub proof fn law_take_asks(taking: TakingView, href: Seq<char>)
    ensures
        match taking {
            TakingView::Locking => take_request(taking, href) matches Some(r) && r.method
                == "LOCK"@ && r.path == href,
            TakingView::Fetching { token } => take_request(taking, href) matches Some(r)
                && r.method == "GET"@ && r.path == href && r.headers.len() == 0 && r.body.len()
                == 0,
            TakingView::Deleting { token, bytes } => take_request(taking, href) matches Some(r)
                && r.method == "DELETE"@ && r.path == href && r.headers == seq![
                ("If"@, "(<"@ + token + ">)"@),
            ] && r.body.len() == 0,
            TakingView::Releasing { token, error } => take_request(taking, href) matches Some(r)
                && r.method == "UNLOCK"@ && r.path == href && r.headers == seq![
                ("Lock-Token"@, "<"@ + token + ">"@),
            ] && r.body.len() == 0,
            _ => take_request(taking, href) is None,
        },
{
    match taking {
        TakingView::Deleting { token, bytes } => {
            assert(take_request(taking, href)->0.headers =~= seq![
                ("If"@, "(<"@ + token + ">)"@),
            ]);
        },
        TakingView::Releasing { token, error } => {
            assert(take_request(taking, href)->0.headers =~= seq![
                ("Lock-Token"@, "<"@ + token + ">"@),
            ]);
        },
        _ => {},
    }
}

// ---------------------------------------------------------------------
// Which members
// ---------------------------------------------------------------------

/// A member is to be taken where it is no collection and its href is not the
/// collection's own, trailing slashes aside.
pub proof fn law_wanted(member: MemberView, path: Seq<char>)
    ensures
        wanted(member, path) <==> !member.collection && trim_end(member.href, Class::Slash)
            != trim_end(path, Class::Slash),
{
}

/// The next member that a receive comes to is the first that is to be taken:
/// none before it is, and it is, or there are no more.
pub proof fn law_next_wanted(members: Seq<MemberView>, path: Seq<char>, from: int)
    requires
        0 <= from <= members.len(),
    ensures
        from <= next_wanted(members, path, from) <= members.len(),
        forall|i: int|
            from <= i < next_wanted(members, path, from) ==> (#[trigger] members[i]).collection
                || trim_end(members[i].href, Class::Slash) == trim_end(path, Class::Slash),
        next_wanted(members, path, from) < members.len() ==> {
            let member = members[next_wanted(members, path, from)];
            !member.collection && trim_end(member.href, Class::Slash) != trim_end(
                path,
                Class::Slash,
            )
        },
    decreases members.len() - from,
{
    if from < members.len() && !wanted(members[from], path) {
        law_next_wanted(members, path, from + 1);
    }
}

// ---------------------------------------------------------------------
// A whole collection
// ---------------------------------------------------------------------

/// Whether a receive has gone on to the first member at or after `from` that
/// is to be taken, and starts with its lock, or is done where there is none.
pub open spec fn went_on(receiving: ReceivingView, from: int) -> bool {
    &&& receiving.next == next_wanted(receiving.members, receiving.path, from)
    &&& receiving.next < receiving.members.len() ==> receiving.phase == PhaseView::Taking(
        TakingView::Locking,
    )
    &&& receiving.next >= receiving.members.len() ==> receiving.phase == PhaseView::Done
}

/// A receive starts with nothing arrived, and asks for a listing of its
/// collection.
pub proof fn law_receive_starts_with_the_listing(authority: Seq<char>, path: Seq<char>)
    ensures
        ({
            let start = receive_start(authority, path);
            &&& start.authority == authority
            &&& start.path == path
            &&& start.arrived.len() == 0
            &&& start.phase == PhaseView::Listing
            &&& receive_request(start) matches Some(r) && r.method == "PROPFIND"@ && r.path
                == path
        }),
{
}

/// Where the listing fails the receive fails, with the same error. Else it
/// goes on to the first member listed that is to be taken.
pub proof fn law_listing_answered(
    receiving: ReceivingView,
    answer: Result<ResponseView, ErrorView>,
)
    requires
        receiving.phase is Listing,
    ensures
        ({
            let further = receive_step(receiving, answer);
            &&& further.authority == receiving.authority
            &&& further.path == receiving.path
            &&& further.arrived == receiving.arrived
            &&& if !is_success(answer) {
                further.phase matches PhaseView::Failed(error) && is_failure_of(error, answer)
            } else {
                &&& listing_in(answer->Ok_0) matches Ok(members) && further.members == members
                &&& went_on(further, 0)
            }
        }),
{
}

/// Where the take of a member fails, at whatever step, the receive fails with
/// that same error: it asks nothing more, and what had arrived goes nowhere
/// else.
pub proof fn law_failed_take_fails_the_receive(
    receiving: ReceivingView,
    taking: TakingView,
    answer: Result<ResponseView, ErrorView>,
)
    requires
        receiving.phase == PhaseView::Taking(taking),
        take_step(taking, answer) is Failed,
    ensures
        ({
            let further = receive_step(receiving, answer);
            &&& further.phase == PhaseView::Failed(take_step(taking, answer)->Failed_0)
            &&& receive_request(further) is None
        }),
{
}

/// A receive that takes a member asks what the take asks, of that member.
pub proof fn law_receive_asks_of_its_member(receiving: ReceivingView, taking: TakingView)
    requires
        receiving.phase == PhaseView::Taking(taking),
        0 <= receiving.next < receiving.members.len(),
    ensures
        receive_request(receiving) == take_request(
            taking,
            receiving.members[receiving.next].href,
        ),
{
}

/// While a take goes on the receive stays with its member. A member that is
/// taken arrives, whole, under the URI of its href, after all that had
/// arrived, and the receive goes on to the next; one that is passed over
/// leaves no trace.
pub proof fn law_receive_follows_its_take(
    receiving: ReceivingView,
    taking: TakingView,
    answer: Result<ResponseView, ErrorView>,
)
    requires
        receiving.phase == PhaseView::Taking(taking),
        0 <= receiving.next < receiving.members.len(),
    ensures
        ({
            let further = receive_step(receiving, answer);
            let href = receiving.members[receiving.next].href;
            &&& further.authority == receiving.authority
            &&& further.path == receiving.path
            &&& further.members == receiving.members
            &&& match take_step(taking, answer) {
                TakingView::Taken(bytes) => {
                    &&& further.arrived.len() == receiving.arrived.len() + 1
                    &&& further.arrived.drop_last() == receiving.arrived
                    &&& further.arrived.last().bytes == bytes
                    &&& further.arrived.last().origin_uri == "webdav://"@ + receiving.authority
                        + href
                    &&& went_on(further, receiving.next + 1)
                },
                TakingView::PassedOver => further.arrived == receiving.arrived && went_on(
                    further,
                    receiving.next + 1,
                ),
                TakingView::Failed(error) => further.arrived == receiving.arrived && further.phase
                    == PhaseView::Failed(error),
                more => further.arrived == receiving.arrived && further.next == receiving.next
                    && further.phase == PhaseView::Taking(more),
            }
        }),
{
    let further = receive_step(receiving, answer);
    if let TakingView::Taken(bytes) = take_step(taking, answer) {
        assert(further.arrived.drop_last() =~= receiving.arrived);
    }
}

/// A receive that is over stays so, and asks nothing.
pub proof fn law_receive_stays_over(
    receiving: ReceivingView,
    answer: Result<ResponseView, ErrorView>,
)
    requires
        receiving.phase is Done || receiving.phase is Failed,
    ensures
        receive_request(receiving) is None,
        receive_step(receiving, answer) == receiving,
{
}

// ---------------------------------------------------------------------
// A whole receive, whatever its answers
// ---------------------------------------------------------------------

/// How far a receive has come after these answers.
pub open spec fn after_answers(
    receiving: ReceivingView,
    answers: Seq<Result<ResponseView, ErrorView>>,
) -> ReceivingView
    decreases answers.len(),
{
    if answers.len() == 0 {
        receiving
    } else {
        receive_step(after_answers(receiving, answers.drop_last()), answers.last())
    }
}

/// How many of the answers to a receive said that another node holds the
/// member: 423 to a lock.
pub open spec fn times_held(
    receiving: ReceivingView,
    answers: Seq<Result<ResponseView, ErrorView>>,
) -> nat
    decreases answers.len(),
{
    if answers.len() == 0 {
        0
    } else {
        let before = after_answers(receiving, answers.drop_last());
        times_held(receiving, answers.drop_last()) + if before.phase == PhaseView::Taking(
            TakingView::Locking,
        ) && (answers.last() matches Ok(response) && response.status == 423) {
            1nat
        } else {
            0nat
        }
    }
}

/// How many of the first `n` members are to be taken.
pub open spec fn wanted_among(members: Seq<MemberView>, path: Seq<char>, n: int) -> nat
    decreases n,
{
    if n <= 0 {
        0
    } else {
        wanted_among(members, path, n - 1) + if !members[n - 1].collection && trim_end(
            members[n - 1].href,
            Class::Slash,
        ) != trim_end(path, Class::Slash) {
            1nat
        } else {
            0nat
        }
    }
}

/// Members that are not to be taken do not count.
proof fn lemma_wanted_among(members: Seq<MemberView>, path: Seq<char>, from: int)
    requires
        0 <= from <= members.len(),
    ensures
        wanted_among(members, path, next_wanted(members, path, from)) == wanted_among(
            members,
            path,
            from,
        ),
    decreases members.len() - from,
{
    if from < members.len() && !wanted(members[from], path) {
        lemma_wanted_among(members, path, from + 1);
    }
}

/// What has arrived and what was held make up every member before the one a
/// receive has come to.
proof fn lemma_every_member_counts(
    authority: Seq<char>,
    path: Seq<char>,
    answers: Seq<Result<ResponseView, ErrorView>>,
)
    ensures
        ({
            let start = receive_start(authority, path);
            let after = after_answers(start, answers);
            &&& after.path == path
            &&& after.phase is Listing ==> after.arrived.len() == 0 && times_held(start, answers)
                == 0
            &&& after.phase is Taking || after.phase is Done ==> {
                &&& 0 <= after.next <= after.members.len()
                &&& after.phase is Taking <==> after.next < after.members.len()
                &&& after.arrived.len() + times_held(start, answers) == wanted_among(
                    after.members,
                    path,
                    after.next,
                )
            }
            &&& after.phase matches PhaseView::Taking(taking) ==> !(taking is Taken)
                && !(taking is PassedOver) && !(taking is Failed) && !after.members[after.next].collection
                && trim_end(after.members[after.next].href, Class::Slash) != trim_end(
                path,
                Class::Slash,
            )
        }),
    decreases answers.len(),
{
    let start = receive_start(authority, path);
    if answers.len() > 0 {
        let fewer = answers.drop_last();
        let answer = answers.last();
        lemma_every_member_counts(authority, path, fewer);
        let before = after_answers(start, fewer);
        let after = after_answers(start, answers);
        match before.phase {
            PhaseView::Listing => {
                law_listing_answered(before, answer);
                if is_success(answer) {
                    law_next_wanted(after.members, path, 0);
                    lemma_wanted_among(after.members, path, 0);
                }
            },
            PhaseView::Taking(taking) => {
                law_receive_follows_its_take(before, taking, answer);
                law_next_wanted(before.members, path, before.next + 1);
                lemma_wanted_among(before.members, path, before.next + 1);
                law_lock_answered(answer);
            },
            _ => {
                law_receive_stays_over(before, answer);
            },
        }
    }
}

/// No member is left behind in silence: whatever a server answers, where a
/// receive ends well, as many Streams have arrived as there were members to
/// take, but for those that another node held. So where any take failed, the
/// receive has not ended well.
pub proof fn law_no_member_is_left_behind(
    authority: Seq<char>,
    path: Seq<char>,
    answers: Seq<Result<ResponseView, ErrorView>>,
)
    requires
        after_answers(receive_start(authority, path), answers).phase is Done,
    ensures
        ({
            let start = receive_start(authority, path);
            let after = after_answers(start, answers);
            after.arrived.len() + times_held(start, answers) == wanted_among(
                after.members,
                path,
                after.members.len() as int,
            )
        }),
{
    lemma_every_member_counts(authority, path, answers);
}

} // verus!
