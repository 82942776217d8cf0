//! Taking the members of a collection: listed, and each that is a file and
//! not held by somebody else locked, fetched and deleted, in that order.
//!
//! What is decided stands here; the exchanges with the server are whoever's
//! who holds the connection. While there is a request to send, it is sent
//! and what became of it is handed back.

use vstd::prelude::*;
use vstd::string::StringExecFns;
use crate::client::{
    answer_view, carried_out, delete_held_request, fetched, listed, listing_in, lock_in,
    lock_request, locked, propfind_request, refusal, unlock_request, Client,
};
use crate::error::{joined, ErrorView, TransportError};
use crate::stream::{Arrived, ArrivedView};
use crate::target::HttpTarget;
use crate::text::{chars_of, same_chars, trim_end, trim_end_of, Class};
use crate::wire::{succeeded, Request, RequestView, Response, ResponseView};
use crate::xml::{member_views, Member, MemberView};

verus! {

// ---------------------------------------------------------------------
// One member
// ---------------------------------------------------------------------

/// How far the taking of one member has come.
///
/// The delete takes the lock with it, so the lock is
/// given back only where the take did not get that far.
#[derive(Clone, Debug, PartialEq, Eq)]
pub enum Taking {
    /// Waiting for its lock.
    Locking,
    /// Locked with this token, waiting for its bytes.
    Fetching { token: String },
    /// Locked with this token and fetched, waiting for it to be gone.
    Deleting { token: String, bytes: Vec<u8> },
    /// It could not be taken, for this reason; giving its lock back.
    Releasing { token: String, error: TransportError },
    /// Taken: here are its bytes.
    Taken(Vec<u8>),
    /// Another node holds it.
    PassedOver,
    /// It could not be taken, for this reason.
    Failed(TransportError),
}

/// A [`Taking`] as sequences.
pub enum TakingView {
    Locking,
    Fetching { token: Seq<char> },
    Deleting { token: Seq<char>, bytes: Seq<u8> },
    Releasing { token: Seq<char>, error: ErrorView },
    Taken(Seq<u8>),
    PassedOver,
    Failed(ErrorView),
}

impl View for Taking {
    type V = TakingView;

    open spec fn view(&self) -> TakingView {
        match self {
            Taking::Locking => TakingView::Locking,
            Taking::Fetching { token } => TakingView::Fetching { token: token@ },
            Taking::Deleting { token, bytes } => TakingView::Deleting {
                token: token@,
                bytes: bytes@,
            },
            Taking::Releasing { token, error } => TakingView::Releasing {
                token: token@,
                error: error@,
            },
            Taking::Taken(bytes) => TakingView::Taken(bytes@),
            Taking::PassedOver => TakingView::PassedOver,
            Taking::Failed(error) => TakingView::Failed(error@),
        }
    }
}

/// The request a take waits for the answer of.
pub open spec fn take_request(taking: TakingView, href: Seq<char>) -> Option<RequestView> {
    match taking {
        TakingView::Locking => Some(lock_request(href)),
        TakingView::Fetching { token } => Some(RequestView::plain("GET"@, href)),
        TakingView::Deleting { token, bytes } => Some(delete_held_request(href, token)),
        TakingView::Releasing { token, error } => Some(unlock_request(href, token)),
        _ => None,
    }
}

/// What an answer comes to that has only to be a 2xx.
pub open spec fn success(answer: Result<ResponseView, ErrorView>) -> Result<
    ResponseView,
    ErrorView,
> {
    match answer {
        Err(error) => Err(error),
        Ok(response) => if succeeded(response.status) {
            Ok(response)
        } else {
            Err(refusal(response.status))
        },
    }
}

/// What a LOCK comes to.
pub open spec fn lock_result(answer: Result<ResponseView, ErrorView>) -> Result<
    Seq<char>,
    ErrorView,
> {
    match answer {
        Err(error) => Err(error),
        Ok(response) => lock_in(response),
    }
}

/// How far a take has come once its request has come to `answer`.
///
/// A lock that is refused with 423 is another node's: the member is passed
/// over. Any other refusal of the lock is the failure. A refusal of what follows the lock gives the lock
/// back, whatever becomes of that, and is the failure.
pub open spec fn take_step(taking: TakingView, answer: Result<ResponseView, ErrorView>) -> TakingView {
    match taking {
        TakingView::Locking => match lock_result(answer) {
            Ok(token) => TakingView::Fetching { token },
            Err(error) => if answer matches Ok(response) && response.status == 423 {
                TakingView::PassedOver
            } else {
                TakingView::Failed(error)
            },
        },
        TakingView::Fetching { token } => match success(answer) {
            Ok(response) => TakingView::Deleting { token, bytes: response.body },
            Err(error) => TakingView::Releasing { token, error },
        },
        TakingView::Deleting { token, bytes } => match success(answer) {
            Ok(_) => TakingView::Taken(bytes),
            Err(error) => TakingView::Releasing { token, error },
        },
        TakingView::Releasing { token, error } => TakingView::Failed(error),
        _ => taking,
    }
}

impl Taking {
    /// The request to send for the member at `href`; none once it is known
    /// what became of it.
    #[must_use]
    pub fn request(&self, href: &str) -> (res: Option<Request>)
        ensures
            match res {
                Some(request) => take_request(self@, href@) == Some(request@),
                None => take_request(self@, href@) is None,
            },
    {
        match self {
            Taking::Locking => Some(Client::lock(href)),
            Taking::Fetching { token: _ } => Some(Client::get(href)),
            Taking::Deleting { token, bytes: _ } => Some(
                Client::delete_held(href, token.as_str()),
            ),
            Taking::Releasing { token, error: _ } => Some(Client::unlock(href, token.as_str())),
            _ => None,
        }
    }

    /// Go on with what became of the request.
    #[must_use]
    pub fn answered(self, answer: Result<Response, TransportError>) -> (res: Taking)
        ensures
            res@ == take_step(self@, answer_view(answer)),
    {
        match self {
            Taking::Locking => {
                let held = match &answer {
                    Err(_) => false,
                    Ok(response) => response.status == 423,
                };
                let outcome = match answer {
                    Err(error) => Err(error),
                    Ok(response) => locked(response),
                };
                match outcome {
                    Ok(token) => Taking::Fetching { token },
                    Err(error) => if held {
                        Taking::PassedOver
                    } else {
                        Taking::Failed(error)
                    },
                }
            },
            Taking::Fetching { token } => {
                let outcome = match answer {
                    Err(error) => Err(error),
                    Ok(response) => fetched(response),
                };
                match outcome {
                    Ok(bytes) => Taking::Deleting { token, bytes },
                    Err(error) => Taking::Releasing { token, error },
                }
            },
            Taking::Deleting { token, bytes } => {
                let outcome = match answer {
                    Err(error) => Err(error),
                    Ok(response) => carried_out(response),
                };
                match outcome {
                    Ok(_) => Taking::Taken(bytes),
                    Err(error) => Taking::Releasing { token, error },
                }
            },
            Taking::Releasing { token: _, error } => Taking::Failed(error),
            Taking::Taken(bytes) => Taking::Taken(bytes),
            Taking::PassedOver => Taking::PassedOver,
            Taking::Failed(error) => Taking::Failed(error),
        }
    }
}

// ---------------------------------------------------------------------
// A whole collection
// ---------------------------------------------------------------------

/// What a receive is about to do.
pub enum Phase {
    /// Waiting for the listing.
    Listing,
    /// Taking the member it has come to.
    Taking(Taking),
    /// Done with every member.
    Done,
    /// Given up, for this reason.
    Failed(TransportError),
}

/// A [`Phase`] as sequences.
pub enum PhaseView {
    Listing,
    Taking(TakingView),
    Done,
    Failed(ErrorView),
}

impl View for Phase {
    type V = PhaseView;

    open spec fn view(&self) -> PhaseView {
        match self {
            Phase::Listing => PhaseView::Listing,
            Phase::Taking(taking) => PhaseView::Taking(taking@),
            Phase::Done => PhaseView::Done,
            Phase::Failed(error) => PhaseView::Failed(error@),
        }
    }
}

/// How far the receive of a collection has come.
pub struct Receiving {
    authority: String,
    path: String,
    members: Vec<Member>,
    next: usize,
    arrived: Vec<Arrived>,
    phase: Phase,
}

/// A [`Receiving`] as sequences: the server and the path of the collection,
/// the members listed there, the one it has come to, what has arrived, and
/// what it is about to do.
pub struct ReceivingView {
    pub authority: Seq<char>,
    pub path: Seq<char>,
    pub members: Seq<MemberView>,
    pub next: int,
    pub arrived: Seq<ArrivedView>,
    pub phase: PhaseView,
}

/// The views of a run of Streams.
pub open spec fn arrived_views(arrived: Seq<Arrived>) -> Seq<ArrivedView> {
    arrived.map_values(|a: Arrived| a@)
}

impl View for Receiving {
    type V = ReceivingView;

    closed spec fn view(&self) -> ReceivingView {
        ReceivingView {
            authority: self.authority@,
            path: self.path@,
            members: member_views(self.members@),
            next: self.next as int,
            arrived: arrived_views(self.arrived@),
            phase: self.phase@,
        }
    }
}

/// Whether a member of the listing is to be taken: it is a file, and not the
/// collection itself.
pub open spec fn wanted(member: MemberView, path: Seq<char>) -> bool {
    !member.collection && trim_end(member.href, Class::Slash) != trim_end(path, Class::Slash)
}

/// The first member at or after `from` that is to be taken, or the end.
pub open spec fn next_wanted(members: Seq<MemberView>, path: Seq<char>, from: int) -> int
    decreases members.len() - from,
{
    if from >= members.len() || wanted(members[from], path) {
        from
    } else {
        next_wanted(members, path, from + 1)
    }
}

/// The receive, moved on to the first member at or after `from` that is to
/// be taken.
pub open spec fn moved_on(receiving: ReceivingView, from: int) -> ReceivingView {
    let next = next_wanted(receiving.members, receiving.path, from);
    ReceivingView {
        next,
        phase: if next < receiving.members.len() {
            PhaseView::Taking(TakingView::Locking)
        } else {
            PhaseView::Done
        },
        ..receiving
    }
}

/// The request a receive waits for the answer of.
pub open spec fn receive_request(receiving: ReceivingView) -> Option<RequestView> {
    match receiving.phase {
        PhaseView::Listing => Some(propfind_request(receiving.path, "1"@)),
        PhaseView::Taking(taking) => take_request(
            taking,
            receiving.members[receiving.next].href,
        ),
        _ => None,
    }
}

/// The URI that a member of a collection arrives from.
pub open spec fn origin_of(authority: Seq<char>, href: Seq<char>) -> Seq<char> {
    "webdav://"@ + authority + href
}

/// How far a receive has come once its request has come to `answer`.
pub open spec fn receive_step(
    receiving: ReceivingView,
    answer: Result<ResponseView, ErrorView>,
) -> ReceivingView {
    match receiving.phase {
        PhaseView::Listing => {
            let listing = match answer {
                Err(error) => Err(error),
                Ok(response) => listing_in(response),
            };
            match listing {
                Err(error) => ReceivingView { phase: PhaseView::Failed(error), ..receiving },
                Ok(members) => moved_on(ReceivingView { members, ..receiving }, 0),
            }
        },
        PhaseView::Taking(taking) => match take_step(taking, answer) {
            TakingView::Taken(bytes) => {
                let href = receiving.members[receiving.next].href;
                let stream = ArrivedView {
                    origin_uri: origin_of(receiving.authority, href),
                    bytes,
                };
                moved_on(
                    ReceivingView { arrived: receiving.arrived.push(stream), ..receiving },
                    receiving.next + 1,
                )
            },
            TakingView::PassedOver => moved_on(receiving, receiving.next + 1),
            TakingView::Failed(error) => ReceivingView {
                phase: PhaseView::Failed(error),
                ..receiving
            },
            further => ReceivingView { phase: PhaseView::Taking(further), ..receiving },
        },
        _ => receiving,
    }
}

/// The receive of a collection, before anything was asked.
pub open spec fn receive_start(authority: Seq<char>, path: Seq<char>) -> ReceivingView {
    ReceivingView {
        authority,
        path,
        members: Seq::empty(),
        next: 0,
        arrived: Seq::empty(),
        phase: PhaseView::Listing,
    }
}

impl Receiving {
    /// While a member is taken there is one.
    pub closed spec fn wf(self) -> bool {
        self.phase is Taking ==> self.next < self.members.len()
    }

    /// Start on the collection that `target` names.
    #[must_use]
    pub fn start(target: &HttpTarget) -> (res: Self)
        ensures
            res.wf(),
            res@ == receive_start(target@.authority, target@.path),
    {
        let res = Receiving {
            authority: target.authority.clone(),
            path: target.path.clone(),
            members: Vec::new(),
            next: 0,
            arrived: Vec::new(),
            phase: Phase::Listing,
        };
        proof {
            assert(res@.members =~= Seq::<MemberView>::empty());
            assert(res@.arrived =~= Seq::<ArrivedView>::empty());
        }
        res
    }

    /// The request to send; none once the receive is over.
    #[must_use]
    pub fn request(&self) -> (res: Option<Request>)
        requires
            self.wf(),
        ensures
            match res {
                Some(request) => receive_request(self@) == Some(request@),
                None => receive_request(self@) is None,
            },
    {
        match &self.phase {
            Phase::Listing => Some(Client::list(self.path.as_str())),
            Phase::Taking(taking) => taking.request(self.members[self.next].href.as_str()),
            _ => None,
        }
    }

    /// Move on to the first member at or after `from` that is to be taken.
    fn move_on(self, from: usize) -> (res: Self)
        requires
            from <= self.members@.len(),
        ensures
            res.wf(),
            res@ == moved_on(self@, from as int),
    {
        let mut res = self;
        let path = chars_of(res.path.as_str());
        let itself = trim_end_of(path.as_slice(), Class::Slash);
        let mut next: usize = from;
        while next < res.members.len()
            invariant_except_break
                next_wanted(res@.members, res@.path, from as int) == next_wanted(
                    res@.members,
                    res@.path,
                    next as int,
                ),
            invariant
                res == self,
                itself@ == trim_end(res@.path, Class::Slash),
                next <= res.members.len(),
            ensures
                next == next_wanted(res@.members, res@.path, from as int),
            decreases res.members.len() - next,
        {
            let href = chars_of(res.members[next].href.as_str());
            let trimmed = trim_end_of(href.as_slice(), Class::Slash);
            proof {
                assert(res@.members[next as int] == res.members@[next as int]@);
            }
            if !res.members[next].collection && !same_chars(trimmed, itself) {
                break;
            }
            next += 1;
        }
        res.next = next;
        res.phase = if next < res.members.len() {
            Phase::Taking(Taking::Locking)
        } else {
            Phase::Done
        };
        res
    }

    /// Go on with what became of the request.
    #[must_use]
    pub fn answered(self, answer: Result<Response, TransportError>) -> (res: Self)
        requires
            self.wf(),
        ensures
            res.wf(),
            res@ == receive_step(self@, answer_view(answer)),
    {
        let Receiving { authority, path, members, next, arrived, phase } = self;
        match phase {
            Phase::Listing => {
                let listing = match answer {
                    Err(error) => Err(error),
                    Ok(response) => listed(response),
                };
                match listing {
                    Err(error) => Receiving {
                        authority,
                        path,
                        members,
                        next,
                        arrived,
                        phase: Phase::Failed(error),
                    },
                    Ok(members) => Receiving {
                        authority,
                        path,
                        members,
                        next,
                        arrived,
                        phase: Phase::Listing,
                    }.move_on(0),
                }
            },
            Phase::Taking(taking) => match taking.answered(answer) {
                Taking::Taken(bytes) => {
                    let ghost before = arrived@;
                    let mut origin = joined("webdav://", authority.as_str());
                    origin.append(members[next].href.as_str());
                    let mut arrived = arrived;
                    arrived.push(Arrived::new(origin, bytes));
                    proof {
                        assert(arrived_views(arrived@) =~= arrived_views(before).push(
                            arrived@.last()@,
                        ));
                    }
                    Receiving { authority, path, members, next, arrived, phase: Phase::Done }.move_on(
                        next + 1,
                    )
                },
                Taking::PassedOver => Receiving {
                    authority,
                    path,
                    members,
                    next,
                    arrived,
                    phase: Phase::Done,
                }.move_on(next + 1),
                Taking::Failed(error) => Receiving {
                    authority,
                    path,
                    members,
                    next,
                    arrived,
                    phase: Phase::Failed(error),
                },
                further => Receiving {
                    authority,
                    path,
                    members,
                    next,
                    arrived,
                    phase: Phase::Taking(further),
                },
            },
            phase => Receiving { authority, path, members, next, arrived, phase },
        }
    }

    /// What arrived, once there is no request to send.
    ///
    /// # Errors
    /// Why the receive was given up.
    pub fn finish(self) -> (res: Result<Vec<Arrived>, TransportError>)
        ensures
            match self@.phase {
                PhaseView::Failed(error) => res matches Err(e) && e@ == error,
                _ => res matches Ok(arrived) && arrived_views(arrived@) == self@.arrived,
            },
    {
        match self.phase {
            Phase::Failed(error) => Err(error),
            _ => Ok(self.arrived),
        }
    }
}

} // verus!
